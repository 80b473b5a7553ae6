//! Failures while an image is turned into a PDF file.

use vstd::prelude::*;

verus! {

/// Failures while parsing an image or producing its PDF.
#[derive(Debug)]
pub enum ImagePdfError {
    InvalidInput,
    InvalidOutputPath,
    InvalidImage,
    UnsupportedImage,
    TooLarge,
    OutputTooLarge,
    Cancelled,
    InputIo(String),
    OutputIo(String),
}

/// What contracts say of an `ImagePdfError`.
pub enum Fault {
    InvalidInput,
    InvalidOutputPath,
    InvalidImage,
    UnsupportedImage,
    TooLarge,
    OutputTooLarge,
    Cancelled,
    InputIo(Seq<char>),
    OutputIo(Seq<char>),
}

impl View for ImagePdfError {
    type V = Fault;

    open spec fn view(&self) -> Fault {
        match *self {
            ImagePdfError::InvalidInput => Fault::InvalidInput,
            ImagePdfError::InvalidOutputPath => Fault::InvalidOutputPath,
            ImagePdfError::InvalidImage => Fault::InvalidImage,
            ImagePdfError::UnsupportedImage => Fault::UnsupportedImage,
            ImagePdfError::TooLarge => Fault::TooLarge,
            ImagePdfError::OutputTooLarge => Fault::OutputTooLarge,
            ImagePdfError::Cancelled => Fault::Cancelled,
            ImagePdfError::InputIo(message) => Fault::InputIo(message@),
            ImagePdfError::OutputIo(message) => Fault::OutputIo(message@),
        }
    }
}

impl ImagePdfError {
    pub open spec fn code_spec(self) -> Seq<char> {
        match self {
            ImagePdfError::InvalidInput => "PATH_NOT_ALLOWED"@,
            ImagePdfError::InvalidOutputPath => "OUTPUT_PATH_NOT_ALLOWED"@,
            ImagePdfError::InvalidImage => "CORRUPTED_IMAGE"@,
            ImagePdfError::UnsupportedImage => "UNSUPPORTED_FORMAT"@,
            ImagePdfError::TooLarge => "INPUT_TOO_LARGE"@,
            ImagePdfError::OutputTooLarge => "OUTPUT_SIZE_EXCEEDED"@,
            ImagePdfError::Cancelled => "CANCELLED"@,
            ImagePdfError::InputIo(_) => "INPUT_READ_FAILED"@,
            ImagePdfError::OutputIo(_) => "OUTPUT_WRITE_FAILED"@,
        }
    }

    /// The stable code of this class of failures.
    pub fn code(&self) -> (r: &'static str)
        ensures
            r@ == self.code_spec(),
    {
        match self {
            ImagePdfError::InvalidInput => "PATH_NOT_ALLOWED",
            ImagePdfError::InvalidOutputPath => "OUTPUT_PATH_NOT_ALLOWED",
            ImagePdfError::InvalidImage => "CORRUPTED_IMAGE",
            ImagePdfError::UnsupportedImage => "UNSUPPORTED_FORMAT",
            ImagePdfError::TooLarge => "INPUT_TOO_LARGE",
            ImagePdfError::OutputTooLarge => "OUTPUT_SIZE_EXCEEDED",
            ImagePdfError::Cancelled => "CANCELLED",
            ImagePdfError::InputIo(_) => "INPUT_READ_FAILED",
            ImagePdfError::OutputIo(_) => "OUTPUT_WRITE_FAILED",
        }
    }

    pub open spec fn message_spec(self) -> Seq<char> {
        match self {
            ImagePdfError::InvalidInput =>
                "The image input must be a local regular PNG/JPEG/GIF/WebP/TIFF/BMP file and cannot be a symlink"@,
            ImagePdfError::InvalidOutputPath =>
                "The PDF output must be an absolute path in an existing directory"@,
            ImagePdfError::InvalidImage => "The image file is invalid or corrupted"@,
            ImagePdfError::UnsupportedImage =>
                "This image encoding, color profile, animation, or EXIF rotation is not supported"@,
            ImagePdfError::TooLarge => "Image dimensions or decode memory exceed the safety limit"@,
            ImagePdfError::OutputTooLarge => "The generated PDF exceeds the safety limit"@,
            ImagePdfError::Cancelled => "Image to PDF conversion cancelled"@,
            ImagePdfError::InputIo(message) => "Could not read the image: "@ + message@,
            ImagePdfError::OutputIo(message) => "PDF output failed: "@ + message@,
        }
    }

    /// The sentence that tells a user what went wrong.
    pub fn message(&self) -> (r: String)
        ensures
            r@ == self.message_spec(),
    {
        match self {
            ImagePdfError::InvalidInput =>
                "The image input must be a local regular PNG/JPEG/GIF/WebP/TIFF/BMP file and cannot be a symlink".to_owned(),
            ImagePdfError::InvalidOutputPath =>
                "The PDF output must be an absolute path in an existing directory".to_owned(),
            ImagePdfError::InvalidImage => "The image file is invalid or corrupted".to_owned(),
            ImagePdfError::UnsupportedImage =>
                "This image encoding, color profile, animation, or EXIF rotation is not supported".to_owned(),
            ImagePdfError::TooLarge =>
                "Image dimensions or decode memory exceed the safety limit".to_owned(),
            ImagePdfError::OutputTooLarge =>
                "The generated PDF exceeds the safety limit".to_owned(),
            ImagePdfError::Cancelled => "Image to PDF conversion cancelled".to_owned(),
            ImagePdfError::InputIo(message) => {
                let mut text = "Could not read the image: ".to_owned();
                text.push_str(message.as_str());
                text
            },
            ImagePdfError::OutputIo(message) => {
                let mut text = "PDF output failed: ".to_owned();
                text.push_str(message.as_str());
                text
            },
        }
    }
}

/// `r` is the outcome `expected`.
pub open spec fn gives<T: View>(
    r: Result<T, ImagePdfError>,
    expected: Result<T::V, Fault>,
) -> bool {
    match r {
        Ok(value) => expected == Ok::<T::V, Fault>(value@),
        Err(error) => expected == Err::<T::V, Fault>(error@),
    }
}

/// `r` reports a cancellation, and `stop` has asked for one.
pub open spec fn halted<T, F: Fn() -> bool>(r: Result<T, ImagePdfError>, stop: F) -> bool {
    &&& r is Err
    &&& r->Err_0@ == Fault::Cancelled
    &&& stop.ensures((), true)
}

/// `r` is the outcome `expected`, unless `stop` has asked for a cancellation
/// and `r` reports it.
pub open spec fn concludes<T: View, F: Fn() -> bool>(
    r: Result<T, ImagePdfError>,
    expected: Result<T::V, Fault>,
    stop: F,
) -> bool {
    gives(r, expected) || halted(r, stop)
}

/// How an input/output operation failed.
#[derive(Debug, Clone, Copy, PartialEq, Eq, Structural)]
pub enum IoKind {
    TimedOut,
    UnexpectedEof,
    Other,
}

/// What a failure to read an image means.
pub open spec fn input_fault(kind: IoKind, message: Seq<char>) -> Fault {
    match kind {
        IoKind::TimedOut => Fault::Cancelled,
        IoKind::UnexpectedEof => Fault::InvalidImage,
        IoKind::Other => Fault::InputIo(message),
    }
}

/// What a failure to read an image means.
pub fn input_io_error(kind: IoKind, message: String) -> (r: ImagePdfError)
    ensures
        r@ == input_fault(kind, message@),
{
    match kind {
        IoKind::TimedOut => ImagePdfError::Cancelled,
        IoKind::UnexpectedEof => ImagePdfError::InvalidImage,
        IoKind::Other => ImagePdfError::InputIo(message),
    }
}

} // verus!
