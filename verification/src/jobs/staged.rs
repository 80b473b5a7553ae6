//! Whether what an engine has written is what it should be.

use vstd::prelude::*;
use vstd::utf8::*;

use crate::jobs::event::StopReason;
use crate::jobs::run::FinalizationFailure;
use crate::text::same;
use crate::utf8_check::Utf8Check;

verus! {

/// What contracts say of a `FinalizationFailure`.
pub enum Mishap {
    Stopped(StopReason),
    Write(Seq<char>),
}

impl View for FinalizationFailure {
    type V = Mishap;

    open spec fn view(&self) -> Mishap {
        match *self {
            FinalizationFailure::Stopped(reason) => Mishap::Stopped(reason),
            FinalizationFailure::Write(message) => Mishap::Write(message@),
        }
    }
}

/// `r` is the outcome `expected`.
pub open spec fn amounts(
    r: Result<(), FinalizationFailure>,
    expected: Result<(), Mishap>,
) -> bool {
    match r {
        Ok(_) => expected is Ok,
        Err(failure) => expected == Err::<(), Mishap>(failure@),
    }
}

/// What files with an extension begin with.
pub open spec fn signature_of(extension: Seq<char>) -> Option<Seq<u8>> {
    if extension == "pdf"@ {
        Some(seq![0x25u8, 0x50u8, 0x44u8, 0x46u8, 0x2du8])
    } else if extension == "docx"@ || extension == "odt"@ || extension == "pptx"@ || extension
        == "odp"@ {
        Some(seq![0x50u8, 0x4bu8, 3u8, 4u8])
    } else if extension == "doc"@ || extension == "ppt"@ {
        Some(seq![0xd0u8, 0xcfu8, 0x11u8, 0xe0u8, 0xa1u8, 0xb1u8, 0x1au8, 0xe1u8])
    } else if extension == "png"@ {
        Some(seq![0x89u8, 0x50u8, 0x4eu8, 0x47u8, 0x0du8, 0x0au8, 0x1au8, 0x0au8])
    } else if extension == "jpg"@ {
        Some(seq![0xffu8, 0xd8u8, 0xffu8])
    } else if extension == "bmp"@ {
        Some(seq![0x42u8, 0x4du8])
    } else if extension == "gif"@ {
        Some(seq![0x47u8, 0x49u8, 0x46u8, 0x38u8])
    } else if extension == "webp"@ {
        Some(seq![0x52u8, 0x49u8, 0x46u8, 0x46u8])
    } else if extension == "tiff"@ {
        Some(seq![0x49u8, 0x49u8, 0x2au8, 0u8])
    } else {
        None
    }
}

fn signature(extension: &str) -> (r: Option<Vec<u8>>)
    ensures
        match r {
            None => signature_of(extension@) is None,
            Some(bytes) => signature_of(extension@) == Some(bytes@),
        },
{
    if same(extension, "pdf") {
        let r: Vec<u8> = vec![0x25, 0x50, 0x44, 0x46, 0x2d];
        assert(r@ =~= signature_of(extension@)->0);
        Some(r)
    } else if same(extension, "docx") || same(extension, "odt") || same(extension, "pptx") || same(
        extension,
        "odp",
    ) {
        let r: Vec<u8> = vec![0x50, 0x4b, 3, 4];
        assert(r@ =~= signature_of(extension@)->0);
        Some(r)
    } else if same(extension, "doc") || same(extension, "ppt") {
        let r: Vec<u8> = vec![0xd0, 0xcf, 0x11, 0xe0, 0xa1, 0xb1, 0x1a, 0xe1];
        assert(r@ =~= signature_of(extension@)->0);
        Some(r)
    } else if same(extension, "png") {
        let r: Vec<u8> = vec![0x89, 0x50, 0x4e, 0x47, 0x0d, 0x0a, 0x1a, 0x0a];
        assert(r@ =~= signature_of(extension@)->0);
        Some(r)
    } else if same(extension, "jpg") {
        let r: Vec<u8> = vec![0xff, 0xd8, 0xff];
        assert(r@ =~= signature_of(extension@)->0);
        Some(r)
    } else if same(extension, "bmp") {
        let r: Vec<u8> = vec![0x42, 0x4d];
        assert(r@ =~= signature_of(extension@)->0);
        Some(r)
    } else if same(extension, "gif") {
        let r: Vec<u8> = vec![0x47, 0x49, 0x46, 0x38];
        assert(r@ =~= signature_of(extension@)->0);
        Some(r)
    } else if same(extension, "webp") {
        let r: Vec<u8> = vec![0x52, 0x49, 0x46, 0x46];
        assert(r@ =~= signature_of(extension@)->0);
        Some(r)
    } else if same(extension, "tiff") {
        let r: Vec<u8> = vec![0x49, 0x49, 0x2a, 0];
        assert(r@ =~= signature_of(extension@)->0);
        Some(r)
    } else {
        None
    }
}

/// How many bytes of a file are read to see what it begins with.
pub open spec fn header_length_spec(extension: Seq<char>) -> Option<int> {
    match signature_of(extension) {
        None => None,
        Some(signature) => if extension == "webp"@ {
            Some(12int)
        } else {
            Some(signature.len() as int)
        },
    }
}

/// How many bytes of a file are read to see what it begins with.
pub fn header_length(extension: &str) -> (r: Option<usize>)
    ensures
        match r {
            None => header_length_spec(extension@) is None,
            Some(length) => header_length_spec(extension@) == Some(length as int),
        },
{
    match signature(extension) {
        None => None,
        Some(bytes) => if same(extension, "webp") {
            Some(12)
        } else {
            Some(bytes.len())
        },
    }
}

/// What was read of a staged file: its first bytes, as many as `header_length`
/// says; its first six bytes; and its last two bytes.
#[derive(Debug)]
pub struct StagedBytes {
    pub header: Result<Vec<u8>, String>,
    pub gif_header: Result<Vec<u8>, String>,
    pub trailer: Result<Vec<u8>, String>,
}

/// What contracts say of something that was read.
pub open spec fn read(r: Result<Vec<u8>, String>) -> Result<Seq<u8>, Seq<char>> {
    match r {
        Ok(bytes) => Ok(bytes@),
        Err(message) => Err(message@),
    }
}

pub open spec fn invalid() -> Result<(), Mishap> {
    Err(Mishap::Write("The staged output file format is invalid"@))
}

/// The first bytes are those of the format.
pub open spec fn header_fits(extension: Seq<char>, signature: Seq<u8>, header: Seq<u8>) -> bool {
    &&& signature.is_prefix_of(header)
    &&& extension == "webp"@ ==> header.len() >= 12 && header.subrange(8, 12) == seq![
        0x57u8,
        0x45u8,
        0x42u8,
        0x50u8,
    ]
}

/// What is wrong with the bytes of a staged file.
pub open spec fn bytes_judged(
    extension: Seq<char>,
    file: StagedBytes,
    stop: Option<StopReason>,
) -> Result<(), Mishap> {
    match (signature_of(extension), stop, read(file.header)) {
        (None, _, _) => Err(Mishap::Write("Unsupported output file format"@)),
        (Some(_), Some(reason), _) => Err(Mishap::Stopped(reason)),
        (Some(_), None, Err(message)) => Err(
            Mishap::Write("Could not read the output file header: "@ + message),
        ),
        (Some(signature), None, Ok(header)) => if !header_fits(extension, signature, header) {
            invalid()
        } else if extension == "gif"@ {
            match read(file.gif_header) {
                Err(message) => Err(Mishap::Write("Could not read the GIF header: "@ + message)),
                Ok(b) => if b == seq![0x47u8, 0x49u8, 0x46u8, 0x38u8, 0x37u8, 0x61u8] || b == seq![
                    0x47u8,
                    0x49u8,
                    0x46u8,
                    0x38u8,
                    0x39u8,
                    0x61u8,
                ] {
                    Ok(())
                } else {
                    invalid()
                },
            }
        } else if extension == "jpg"@ {
            match read(file.trailer) {
                Err(message) => Err(Mishap::Write("Could not read the JPG trailer: "@ + message)),
                Ok(b) => if b == seq![0xffu8, 0xd9u8] {
                    Ok(())
                } else {
                    invalid()
                },
            }
        } else {
            Ok(())
        },
    }
}

fn write_failure(prefix: &str, message: &String) -> (r: FinalizationFailure)
    ensures
        r@ == Mishap::Write(prefix@ + message@),
{
    let mut text = prefix.to_owned();
    text.push_str(message.as_str());
    FinalizationFailure::Write(text)
}

fn is_prefix(prefix: &Vec<u8>, b: &Vec<u8>) -> (r: bool)
    ensures
        r == prefix@.is_prefix_of(b@),
{
    if prefix.len() > b.len() {
        return false;
    }
    let mut i: usize = 0;
    while i < prefix.len()
        invariant
            i <= prefix@.len() <= b@.len(),
            forall|k: int| 0 <= k < i ==> prefix@[k] == b@[k],
        decreases prefix@.len() - i,
    {
        if prefix[i] != b[i] {
            assert(b@.subrange(0, prefix@.len() as int)[i as int] == b@[i as int]);
            return false;
        }
        i += 1;
    }
    assert(prefix@ =~= b@.subrange(0, prefix@.len() as int));
    true
}

fn header_is_right(extension: &str, signature: &Vec<u8>, header: &Vec<u8>) -> (r: bool)
    ensures
        r == header_fits(extension@, signature@, header@),
{
    if !is_prefix(signature, header) {
        return false;
    }
    if !same(extension, "webp") {
        return true;
    }
    if header.len() < 12 {
        return false;
    }
    let ghost mark = header@.subrange(8, 12);
    assert(mark[0] == header@[8] && mark[1] == header@[9] && mark[2] == header@[10] && mark[3]
        == header@[11]);
    let r = header[8] == 0x57 && header[9] == 0x45 && header[10] == 0x42 && header[11] == 0x50;
    assert(r ==> mark =~= seq![0x57u8, 0x45u8, 0x42u8, 0x50u8]);
    r
}

fn is_gif_header(b: &Vec<u8>) -> (r: bool)
    ensures
        r == (b@ == seq![0x47u8, 0x49u8, 0x46u8, 0x38u8, 0x37u8, 0x61u8] || b@ == seq![
            0x47u8,
            0x49u8,
            0x46u8,
            0x38u8,
            0x39u8,
            0x61u8,
        ]),
{
    if b.len() != 6 {
        return false;
    }
    let r = b[0] == 0x47 && b[1] == 0x49 && b[2] == 0x46 && b[3] == 0x38 && (b[4] == 0x37 || b[4]
        == 0x39) && b[5] == 0x61;
    proof {
        if r {
            if b@[4] == 0x37 {
                assert(b@ =~= seq![0x47u8, 0x49u8, 0x46u8, 0x38u8, 0x37u8, 0x61u8]);
            } else {
                assert(b@ =~= seq![0x47u8, 0x49u8, 0x46u8, 0x38u8, 0x39u8, 0x61u8]);
            }
        }
    }
    r
}

/// Judges the bytes of a staged file whose format begins with a signature.
pub fn judge_bytes(extension: &str, file: &StagedBytes, stop: Option<StopReason>) -> (r: Result<
    (),
    FinalizationFailure,
>)
    ensures
        amounts(r, bytes_judged(extension@, *file, stop)),
{
    let signature = match signature(extension) {
        None => {
            return Err(
                FinalizationFailure::Write("Unsupported output file format".to_owned()),
            );
        },
        Some(signature) => signature,
    };
    match stop {
        Some(reason) => {
            return Err(FinalizationFailure::Stopped(reason));
        },
        None => {},
    }
    let header = match &file.header {
        Err(message) => {
            return Err(write_failure("Could not read the output file header: ", message));
        },
        Ok(header) => header,
    };
    let mut right = header_is_right(extension, &signature, header);
    if right && same(extension, "gif") {
        match &file.gif_header {
            Err(message) => {
                return Err(write_failure("Could not read the GIF header: ", message));
            },
            Ok(b) => {
                right = is_gif_header(b);
            },
        }
    } else if right && same(extension, "jpg") {
        match &file.trailer {
            Err(message) => {
                return Err(write_failure("Could not read the JPG trailer: ", message));
            },
            Ok(b) => {
                right = b.len() == 2 && b[0] == 0xff && b[1] == 0xd9;
                assert(right ==> b@ =~= seq![0xffu8, 0xd9u8]);
            },
        }
    }
    if right {
        Ok(())
    } else {
        Err(FinalizationFailure::Write("The staged output file format is invalid".to_owned()))
    }
}

/// What is looked at in a staged file.
#[derive(Debug, Clone, Copy, PartialEq, Eq, Structural)]
pub enum Scrutiny {
    /// That it is UTF-8.
    Text,
    /// What the office engine says of an RTF file.
    Rtf,
    /// What the office engine says of a flat XML file.
    FlatXml,
    /// Its first and last bytes.
    Bytes,
}

pub open spec fn scrutiny_of(extension: Seq<char>) -> Scrutiny {
    if extension == "txt"@ || extension == "md"@ {
        Scrutiny::Text
    } else if extension == "rtf"@ {
        Scrutiny::Rtf
    } else if extension == "xml"@ {
        Scrutiny::FlatXml
    } else {
        Scrutiny::Bytes
    }
}

/// What is known of a staged file before it is read.
#[derive(Clone, Copy, Debug)]
pub struct StagedMetadata {
    pub regular: bool,
    pub length: u64,
}

/// What is wrong with a staged file before it is read.
pub open spec fn admission(
    metadata: Result<StagedMetadata, String>,
    opened: Result<(), String>,
) -> Result<(), Mishap> {
    match (metadata, opened) {
        (Err(message), _) => Err(
            Mishap::Write("Could not inspect the staged output: "@ + message@),
        ),
        (Ok(file), opened) => if !file.regular || file.length == 0 {
            Err(Mishap::Write("The staged output must be a non-empty regular file"@))
        } else {
            match opened {
                Err(message) => Err(
                    Mishap::Write("Could not read the staged output: "@ + message@),
                ),
                Ok(_) => Ok(()),
            }
        },
    }
}

/// Refuses a staged file that cannot be read or is empty; tells what is looked
/// at in the others.
pub fn admit_staged(
    extension: &str,
    metadata: Result<StagedMetadata, String>,
    opened: Result<(), String>,
) -> (r: Result<Scrutiny, FinalizationFailure>)
    ensures
        match admission(metadata, opened) {
            Err(mishap) => r is Err && r->Err_0@ == mishap,
            Ok(_) => r is Ok && r->Ok_0 == scrutiny_of(extension@),
        },
{
    let file = match metadata {
        Err(message) => {
            return Err(write_failure("Could not inspect the staged output: ", &message));
        },
        Ok(file) => file,
    };
    if !file.regular || file.length == 0 {
        return Err(
            FinalizationFailure::Write(
                "The staged output must be a non-empty regular file".to_owned(),
            ),
        );
    }
    match opened {
        Err(message) => {
            return Err(write_failure("Could not read the staged output: ", &message));
        },
        Ok(()) => {},
    }
    if same(extension, "txt") || same(extension, "md") {
        Ok(Scrutiny::Text)
    } else if same(extension, "rtf") {
        Ok(Scrutiny::Rtf)
    } else if same(extension, "xml") {
        Ok(Scrutiny::FlatXml)
    } else {
        Ok(Scrutiny::Bytes)
    }
}

/// What an office engine's word on a staged file amounts to.
pub open spec fn office_judged(
    scrutiny: Scrutiny,
    verdict: Result<(), String>,
    stop: Option<StopReason>,
) -> Result<(), Mishap> {
    match (scrutiny, verdict, stop) {
        (Scrutiny::FlatXml, _, Some(reason)) => Err(Mishap::Stopped(reason)),
        (Scrutiny::FlatXml, Err(message), None) => Err(
            Mishap::Write("The staged Flat ODF XML output is invalid: "@ + message@),
        ),
        (_, Err(message), _) => Err(
            Mishap::Write("The staged RTF output is invalid: "@ + message@),
        ),
        (_, Ok(_), _) => Ok(()),
    }
}

/// What an office engine's word on a staged file amounts to.
pub fn judge_office(scrutiny: Scrutiny, verdict: Result<(), String>, stop: Option<StopReason>) -> (r:
    Result<(), FinalizationFailure>)
    ensures
        amounts(r, office_judged(scrutiny, verdict, stop)),
{
    match (scrutiny, verdict, stop) {
        (Scrutiny::FlatXml, _, Some(reason)) => Err(FinalizationFailure::Stopped(reason)),
        (Scrutiny::FlatXml, Err(message), None) => Err(
            write_failure("The staged Flat ODF XML output is invalid: ", &message),
        ),
        (_, Err(message), _) => Err(
            write_failure("The staged RTF output is invalid: ", &message),
        ),
        (_, Ok(_), _) => Ok(()),
    }
}

/// Whether a text that is read piece by piece is UTF-8.
pub struct TextOutputCheck {
    check: Utf8Check,
}

impl View for TextOutputCheck {
    type V = Seq<u8>;

    /// What has been read.
    closed spec fn view(&self) -> Seq<u8> {
        self.check@
    }
}

pub open spec fn not_utf8() -> Mishap {
    Mishap::Write("TXT is not valid UTF-8"@)
}

impl TextOutputCheck {
    pub closed spec fn wf(self) -> bool {
        self.check.wf()
    }

    pub fn new() -> (r: TextOutputCheck)
        ensures
            r.wf(),
            r@ == Seq::<u8>::empty(),
    {
        TextOutputCheck { check: Utf8Check::new() }
    }

    /// Takes the next piece, after it was asked whether to stop. An empty piece
    /// is the end: the verdict is then whether all of the text is UTF-8. There
    /// may be one earlier.
    pub fn accept(&mut self, stop: Option<StopReason>, piece: Result<&[u8], String>) -> (r: Option<
        Result<(), FinalizationFailure>,
    >)
        requires
            old(self).wf(),
        ensures
            match (stop, piece) {
                (Some(reason), _) => r is Some && amounts(r->0, Err(Mishap::Stopped(reason))),
                (None, Err(message)) => r is Some && amounts(
                    r->0,
                    Err(Mishap::Write("Could not read the TXT output: "@ + message@)),
                ),
                (None, Ok(piece)) => if piece@.len() == 0 {
                    r is Some && amounts(
                        r->0,
                        if valid_utf8(old(self)@) {
                            Ok(())
                        } else {
                            Err(not_utf8())
                        },
                    )
                } else {
                    &&& final(self)@ == old(self)@ + piece@
                    &&& r is None ==> final(self).wf()
                    &&& r is Some ==> amounts(r->0, Err(not_utf8())) && forall|rest: Seq<u8>|
                        !valid_utf8(#[trigger] (final(self)@ + rest))
                },
            },
    {
        match stop {
            Some(reason) => {
                return Some(Err(FinalizationFailure::Stopped(reason)));
            },
            None => {},
        }
        let piece = match piece {
            Err(message) => {
                return Some(Err(write_failure("Could not read the TXT output: ", &message)));
            },
            Ok(piece) => piece,
        };
        if piece.len() == 0 {
            return if self.check.finish() {
                Some(Ok(()))
            } else {
                Some(
                    Err(FinalizationFailure::Write("TXT is not valid UTF-8".to_owned())),
                )
            };
        }
        if self.check.accept(piece) {
            None
        } else {
            Some(Err(FinalizationFailure::Write("TXT is not valid UTF-8".to_owned())))
        }
    }
}

} // verus!
