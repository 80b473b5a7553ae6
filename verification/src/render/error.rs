//! Failures while pages are rendered.

use vstd::prelude::*;

use crate::pdf::error::{Failure, PdfError};

verus! {

/// Failures while pages are rendered.
#[derive(Debug)]
pub enum RenderError {
    Pdf(PdfError),
    Io(String),
    PixelLimit,
    Encoding,
    OutputLimit,
    /// The renderer of the system is missing.
    NativeUnavailable,
    /// The renderer of the system failed.
    NativeFailed,
}

/// What contracts say of a `RenderError`.
pub enum Problem {
    Pdf(Failure),
    Io(Seq<char>),
    PixelLimit,
    Encoding,
    OutputLimit,
    NativeUnavailable,
    NativeFailed,
}

impl View for RenderError {
    type V = Problem;

    open spec fn view(&self) -> Problem {
        match *self {
            RenderError::Pdf(error) => Problem::Pdf(error@),
            RenderError::Io(message) => Problem::Io(message@),
            RenderError::PixelLimit => Problem::PixelLimit,
            RenderError::Encoding => Problem::Encoding,
            RenderError::OutputLimit => Problem::OutputLimit,
            RenderError::NativeUnavailable => Problem::NativeUnavailable,
            RenderError::NativeFailed => Problem::NativeFailed,
        }
    }
}

impl RenderError {
    pub open spec fn message_spec(self) -> Seq<char> {
        match self {
            RenderError::Pdf(error) => "Could not read the PDF page: "@ + error.message_spec(),
            RenderError::Io(message) => "Image output failed: "@ + message@,
            RenderError::PixelLimit => "The PDF page dimensions exceed the image safety limit"@,
            RenderError::Encoding => "Image encoding failed"@,
            RenderError::OutputLimit =>
                "Page images exceed the temporary storage limit for this conversion"@,
            RenderError::NativeUnavailable =>
                "The Windows PDF rendering runtime is missing or invalid"@,
            RenderError::NativeFailed =>
                "The Windows PDF rendering process exited unexpectedly"@,
        }
    }

    /// The sentence that tells a user what went wrong.
    pub fn message(&self) -> (r: String)
        ensures
            r@ == self.message_spec(),
    {
        match self {
            RenderError::Pdf(error) => {
                let mut text = "Could not read the PDF page: ".to_owned();
                text.push_str(error.message().as_str());
                text
            },
            RenderError::Io(message) => {
                let mut text = "Image output failed: ".to_owned();
                text.push_str(message.as_str());
                text
            },
            RenderError::PixelLimit =>
                "The PDF page dimensions exceed the image safety limit".to_owned(),
            RenderError::Encoding => "Image encoding failed".to_owned(),
            RenderError::OutputLimit =>
                "Page images exceed the temporary storage limit for this conversion".to_owned(),
            RenderError::NativeUnavailable =>
                "The Windows PDF rendering runtime is missing or invalid".to_owned(),
            RenderError::NativeFailed =>
                "The Windows PDF rendering process exited unexpectedly".to_owned(),
        }
    }
}

/// `r` is the outcome `expected`.
pub open spec fn turns_out<T: View>(
    r: Result<T, RenderError>,
    expected: Result<T::V, Problem>,
) -> bool {
    match r {
        Ok(value) => expected == Ok::<T::V, Problem>(value@),
        Err(error) => expected == Err::<T::V, Problem>(error@),
    }
}

} // verus!
