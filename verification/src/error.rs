//! The conversion's error taxonomy. Every error aborts the current
//! conversion; each carries enough context to report precisely.

use vstd::prelude::*;

use crate::colour::{ColourErrView, ColourParseError};

verus! {

/// The error type of the `png` crate's encoder, declared so that a
/// value of it can be carried through this crate's own error type.
#[verifier::external_type_specification]
#[verifier::external_body]
pub struct ExEncodingError(png::EncodingError);

/// Why a conversion failed.
#[derive(Debug)]
pub enum Error {
    /// A palette line with no colon, or whose identifier side is not
    /// exactly one character.
    MalformedColourDefinition { raw: String },
    /// A palette identifier that is itself a whitespace character.
    WhitespaceColourIdentifier { raw: String },
    /// A palette line whose colour side does not parse.
    MalformedColour { ident: char, error: ColourParseError },
    /// An identifier defined twice within one palette.
    DuplicateColourIdentifier { ident: char },
    /// No grid content: a palette with nothing after it, or a grid
    /// with zero content rows.
    NoImage,
    /// A grid row whose cell count differs from the first row's.
    DifferingWidths { expected: usize, ln: usize, actual: usize },
    /// A grid glyph that the palette does not define, with its
    /// position among the row's cells and its row.
    UnknownIdentifier { ident: char, line_idx: usize, ln: usize },
    /// More colours than the 8-bit indexed format can address.
    TooManyColours { count: usize },
    /// The container-format writer itself failed.
    PngEncodingError { error: png::EncodingError },
}

/// The mathematical shape of an `Error`: the same variants over
/// sequences of characters and unbounded integers.
pub enum ErrorView {
    MalformedColourDefinition(Seq<char>),
    WhitespaceColourIdentifier(Seq<char>),
    MalformedColour(char, ColourErrView),
    DuplicateColourIdentifier(char),
    NoImage,
    DifferingWidths { expected: int, ln: int, actual: int },
    UnknownIdentifier { ident: char, line_idx: int, ln: int },
    TooManyColours(int),
    PngEncoding,
}

impl View for Error {
    type V = ErrorView;

    open spec fn view(&self) -> ErrorView {
        match self {
            Error::MalformedColourDefinition { raw } => ErrorView::MalformedColourDefinition(
                raw@,
            ),
            Error::WhitespaceColourIdentifier { raw } => ErrorView::WhitespaceColourIdentifier(
                raw@,
            ),
            Error::MalformedColour { ident, error } => ErrorView::MalformedColour(*ident, error@),
            Error::DuplicateColourIdentifier { ident } => ErrorView::DuplicateColourIdentifier(
                *ident,
            ),
            Error::NoImage => ErrorView::NoImage,
            Error::DifferingWidths { expected, ln, actual } => ErrorView::DifferingWidths {
                expected: *expected as int,
                ln: *ln as int,
                actual: *actual as int,
            },
            Error::UnknownIdentifier { ident, line_idx, ln } => ErrorView::UnknownIdentifier {
                ident: *ident,
                line_idx: *line_idx as int,
                ln: *ln as int,
            },
            Error::TooManyColours { count } => ErrorView::TooManyColours(*count as int),
            Error::PngEncodingError { error } => ErrorView::PngEncoding,
        }
    }
}

impl Error {
    /// Wrap a colour parse failure with the identifier it was for.
    pub fn malformed_colour(ident: char, error: ColourParseError) -> (r: Error)
        ensures
            r@ == ErrorView::MalformedColour(ident, error@),
    {
        Error::MalformedColour { ident, error }
    }
}

} // verus!
