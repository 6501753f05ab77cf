//! What can go wrong while an array is read or written.

use vstd::prelude::*;

verus! {

/// The ways in which a header, or the array it describes, is unacceptable.
#[derive(Clone, Copy, Debug, PartialEq, Eq, Structural)]
pub enum FormatErrorKind {
    /// A field is not of the form `key: value`. The text is the header,
    /// trimmed.
    MalformedField,
    /// The value of `fortran_order` is neither `True` nor `False`. The text
    /// is that value.
    FortranOrderValue,
    /// The header has no `descr` field.
    MissingDescr,
    /// The `descr` field is empty.
    EmptyDescr,
    /// The type code is marked big-endian. The text is the `descr` value.
    BigEndian,
    /// The type code is not one of the known ones. The text is the code,
    /// byte-order markers stripped.
    UnknownDescr,
    /// The header has no `shape` field.
    MissingShape,
    /// A dimension of the shape is not a number that fits `usize`. The text
    /// is that dimension.
    InvalidDimension,
    /// The header announces column-major data.
    FortranOrder,
    /// The shape describes more elements than `usize` can count.
    ShapeTooLarge,
    /// The element kind has no type code.
    UnsupportedDType,
    /// The header does not fit the two-byte length field.
    HeaderTooLong,
}

/// A format error: its kind and the offending text (empty where the kind
/// names none).
#[derive(Clone, Debug, PartialEq, Eq)]
pub struct FormatError {
    pub kind: FormatErrorKind,
    pub text: String,
}

/// The mathematical content of a `FormatError`.
pub struct FormatErrorView {
    pub kind: FormatErrorKind,
    pub text: Seq<char>,
}

impl View for FormatError {
    type V = FormatErrorView;

    open spec fn view(&self) -> FormatErrorView {
        FormatErrorView { kind: self.kind, text: self.text@ }
    }
}

/// The format error of the given kind about the given text.
pub open spec fn fault(kind: FormatErrorKind, text: Seq<char>) -> FormatErrorView {
    FormatErrorView { kind, text }
}

/// The format error of the given kind that names no text.
pub open spec fn bare_fault(kind: FormatErrorKind) -> FormatErrorView {
    FormatErrorView { kind, text: Seq::<char>::empty() }
}

impl FormatError {
    /// A format error of the given kind about the given text.
    pub fn new(kind: FormatErrorKind, text: &[char]) -> (r: FormatError)
        ensures
            r@ == fault(kind, text@),
    {
        FormatError { kind, text: crate::text::string_of(text) }
    }

    /// A format error of the given kind that names no text.
    pub fn bare(kind: FormatErrorKind) -> (r: FormatError)
        ensures
            r@ == bare_fault(kind),
    {
        FormatError { kind, text: String::new() }
    }
}

/// The ways in which a stream fails to be an array message at all.
#[derive(Clone, Copy, Debug, PartialEq, Eq, Structural)]
pub enum FramingError {
    /// The stream does not start with the magic marker.
    MagicMismatch,
    /// The major version, which is carried here, is neither 1 nor 2.
    UnsupportedVersion(u8),
}

/// The ways in which the transport fails.
#[derive(Clone, Copy, Debug, PartialEq, Eq, Structural)]
pub enum IoError {
    /// The stream ended before the bytes asked for had come.
    ShortRead,
    /// The bytes handed over could not all be sent.
    WriteFailed,
}

/// Why an array could not be read or written.
#[derive(Clone, Debug, PartialEq, Eq)]
pub enum Error {
    Framing(FramingError),
    Format(FormatError),
    Io(IoError),
    /// The compute function signalled failure.
    Compute,
}

/// The mathematical content of an `Error`.
pub enum ErrorView {
    Framing(FramingError),
    Format(FormatErrorView),
    Io(IoError),
    Compute,
}

impl View for Error {
    type V = ErrorView;

    open spec fn view(&self) -> ErrorView {
        match *self {
            Error::Framing(e) => ErrorView::Framing(e),
            Error::Format(e) => ErrorView::Format(e@),
            Error::Io(e) => ErrorView::Io(e),
            Error::Compute => ErrorView::Compute,
        }
    }
}

} // verus!
