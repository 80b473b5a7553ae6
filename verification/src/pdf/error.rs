//! Failures while reading a PDF file.

use vstd::prelude::*;

verus! {

/// Failures while reading a PDF file.
#[derive(Debug)]
pub enum PdfError {
    InvalidPdf,
    CorruptedPdf,
    UnsupportedStructure,
    UnsupportedStreamLength,
    StreamLimitExceeded,
    CMapLimitExceeded,
    NoTextLayer,
    InvalidPageRange,
    PageLimitExceeded,
    UnsupportedFilter(String),
    Decompression,
    Cancelled,
    Io(String),
}

/// What contracts say of a `PdfError`.
pub enum Failure {
    InvalidPdf,
    CorruptedPdf,
    UnsupportedStructure,
    UnsupportedStreamLength,
    StreamLimitExceeded,
    CMapLimitExceeded,
    NoTextLayer,
    InvalidPageRange,
    PageLimitExceeded,
    UnsupportedFilter(Seq<char>),
    Decompression,
    Cancelled,
    Io(Seq<char>),
}

impl View for PdfError {
    type V = Failure;

    open spec fn view(&self) -> Failure {
        match *self {
            PdfError::InvalidPdf => Failure::InvalidPdf,
            PdfError::CorruptedPdf => Failure::CorruptedPdf,
            PdfError::UnsupportedStructure => Failure::UnsupportedStructure,
            PdfError::UnsupportedStreamLength => Failure::UnsupportedStreamLength,
            PdfError::StreamLimitExceeded => Failure::StreamLimitExceeded,
            PdfError::CMapLimitExceeded => Failure::CMapLimitExceeded,
            PdfError::NoTextLayer => Failure::NoTextLayer,
            PdfError::InvalidPageRange => Failure::InvalidPageRange,
            PdfError::PageLimitExceeded => Failure::PageLimitExceeded,
            PdfError::UnsupportedFilter(name) => Failure::UnsupportedFilter(name@),
            PdfError::Decompression => Failure::Decompression,
            PdfError::Cancelled => Failure::Cancelled,
            PdfError::Io(message) => Failure::Io(message@),
        }
    }
}

/// `r` is the outcome `expected`.
pub open spec fn yields<T: View>(r: Result<T, PdfError>, expected: Result<T::V, Failure>) -> bool {
    match r {
        Ok(value) => expected == Ok::<T::V, Failure>(value@),
        Err(error) => expected == Err::<T::V, Failure>(error@),
    }
}

/// `r` reports a cancellation, and `stop` has asked for one.
pub open spec fn stopped<T, F: Fn() -> bool>(r: Result<T, PdfError>, stop: F) -> bool {
    &&& r is Err
    &&& r->Err_0@ == Failure::Cancelled
    &&& stop.ensures((), true)
}

/// `r` is the outcome `expected`, unless `stop` has asked for a cancellation
/// and `r` reports it.
pub open spec fn settles<T: View, F: Fn() -> bool>(
    r: Result<T, PdfError>,
    expected: Result<T::V, Failure>,
    stop: F,
) -> bool {
    yields(r, expected) || stopped(r, stop)
}

impl PdfError {
    /// The sentence that tells a user what went wrong.
    pub open spec fn message_spec(self) -> Seq<char> {
        match self {
            PdfError::InvalidPdf => "PDF structure is invalid"@,
            PdfError::CorruptedPdf => "The PDF is corrupted"@,
            PdfError::UnsupportedStructure =>
                "The PDF uses an unsupported cross-reference structure"@,
            PdfError::UnsupportedStreamLength =>
                "The PDF uses an unsupported indirect stream length"@,
            PdfError::StreamLimitExceeded =>
                "The PDF content stream exceeds the 64 MiB safety limit"@,
            PdfError::CMapLimitExceeded => "The PDF font map exceeds the safety limit"@,
            PdfError::NoTextLayer => "The PDF has no extractable text layer"@,
            PdfError::InvalidPageRange => "The page range is invalid"@,
            PdfError::PageLimitExceeded => "The PDF page count exceeds the safety limit"@,
            PdfError::UnsupportedFilter(name) =>
                "The PDF uses an unsupported content stream filter: "@ + name@,
            PdfError::Decompression => "PDF content stream decompression failed"@,
            PdfError::Cancelled => "PDF conversion cancelled"@,
            PdfError::Io(message) => "Could not read the PDF: "@ + message@,
        }
    }

    pub fn message(&self) -> (r: String)
        ensures
            r@ == self.message_spec(),
    {
        match self {
            PdfError::InvalidPdf => "PDF structure is invalid".to_owned(),
            PdfError::CorruptedPdf => "The PDF is corrupted".to_owned(),
            PdfError::UnsupportedStructure =>
                "The PDF uses an unsupported cross-reference structure".to_owned(),
            PdfError::UnsupportedStreamLength =>
                "The PDF uses an unsupported indirect stream length".to_owned(),
            PdfError::StreamLimitExceeded =>
                "The PDF content stream exceeds the 64 MiB safety limit".to_owned(),
            PdfError::CMapLimitExceeded => "The PDF font map exceeds the safety limit".to_owned(),
            PdfError::NoTextLayer => "The PDF has no extractable text layer".to_owned(),
            PdfError::InvalidPageRange => "The page range is invalid".to_owned(),
            PdfError::PageLimitExceeded =>
                "The PDF page count exceeds the safety limit".to_owned(),
            PdfError::UnsupportedFilter(name) => {
                let mut text = "The PDF uses an unsupported content stream filter: ".to_owned();
                text.push_str(name.as_str());
                text
            },
            PdfError::Decompression => "PDF content stream decompression failed".to_owned(),
            PdfError::Cancelled => "PDF conversion cancelled".to_owned(),
            PdfError::Io(message) => {
                let mut text = "Could not read the PDF: ".to_owned();
                text.push_str(message.as_str());
                text
            },
        }
    }
}

} // verus!
