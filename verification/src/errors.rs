//! Decode failures.  Every failure is fatal: the stream position is not
//! recoverable and no resynchronization is attempted.
//!
//! Failures fall into three classes: malformed data (`Format`), valid but
//! unimplemented JPEG features (`Unsupported`), and an input that ended
//! before a needed byte (`Truncated`).

use vstd::prelude::*;

verus! {

/// The three classes of decode failure.
#[derive(Clone, Copy, Debug, PartialEq, Eq, Structural)]
pub enum ErrorClass {
    /// The stream is malformed or inconsistent.
    Format,
    /// The stream uses a valid JPEG feature this decoder does not implement.
    Unsupported,
    /// The input ended where more bytes were needed.
    Truncated,
}

/// A fatal decode failure, carrying the offending byte where one exists.
#[derive(Clone, Copy, Debug, PartialEq, Eq, Structural)]
pub enum DecodeError {
    /// The input ended where more bytes were needed.
    Truncated,
    /// A marker byte the state machine does not handle.
    UnknownMarker(u8),
    /// A recognized marker for a feature outside the baseline subset
    /// (progressive frames, DNL).
    UnsupportedMarker(u8),
    /// A sample precision other than 8 bits.
    UnsupportedPrecision(u8),
    /// A component count other than 1 or 3.
    UnsupportedComponentCount(u8),
    /// Sampling factors the upsampler cannot place (chroma factors
    /// other than 1x1 in a three-component frame).
    UnsupportedSampling,
    /// A Huffman table class other than DC (0) or AC (1).
    UnsupportedHuffmanClass(u8),
    /// A quantization table with 16-bit precision or an id above 3.
    BadQuantTable,
    /// A sampling factor of zero or above 4, a quantization selector
    /// above 3, or a Huffman selector above 1.
    BadTableSelector,
    /// A frame with zero width or zero height.
    ZeroDimension,
    /// An AC run carried the zig-zag index past position 63.
    CoefficientOverrun,
    /// No Huffman code matched within 16 bits.
    HuffmanCodeTooLong,
    /// A restart marker other than the expected one in the cyclic order.
    RestartMismatch(u8),
    /// The scan ended (EOI) while searching for a restart marker.
    RestartNotFound,
    /// A scan that names an undeclared component, repeats one or breaks
    /// frame order, or arrives before any frame header (the byte is the
    /// offending component id, or the scan's component count when no
    /// frame was declared).
    BadScanComponent(u8),
    /// A frame header that declares the same component id twice.
    DuplicateComponent,
    /// A length-prefixed segment whose length field is below 2.
    BadSegmentLength,
    /// A DC size symbol above 16, outside the baseline range.
    BadDcSize(u8),
    /// A scanline buffer whose length is not the row length.
    BadBufferLength,
}

impl DecodeError {
    /// The class a failure belongs to.
    pub open spec fn spec_class(self) -> ErrorClass {
        match self {
            DecodeError::Truncated => ErrorClass::Truncated,
            DecodeError::UnsupportedMarker(_) => ErrorClass::Unsupported,
            DecodeError::UnsupportedPrecision(_) => ErrorClass::Unsupported,
            DecodeError::UnsupportedComponentCount(_) => ErrorClass::Unsupported,
            DecodeError::UnsupportedSampling => ErrorClass::Unsupported,
            DecodeError::UnsupportedHuffmanClass(_) => ErrorClass::Unsupported,
            _ => ErrorClass::Format,
        }
    }

    /// The class a failure belongs to.
    pub fn class(&self) -> (r: ErrorClass)
        ensures
            r == self.spec_class(),
    {
        match self {
            DecodeError::Truncated => ErrorClass::Truncated,
            DecodeError::UnsupportedMarker(_) => ErrorClass::Unsupported,
            DecodeError::UnsupportedPrecision(_) => ErrorClass::Unsupported,
            DecodeError::UnsupportedComponentCount(_) => ErrorClass::Unsupported,
            DecodeError::UnsupportedSampling => ErrorClass::Unsupported,
            DecodeError::UnsupportedHuffmanClass(_) => ErrorClass::Unsupported,
            _ => ErrorClass::Format,
        }
    }
}

} // verus!
