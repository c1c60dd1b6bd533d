//! The ways in which reading colors, resolving palettes and filling templates fail.
use vstd::prelude::*;

verus! {

/// A failure, with enough context to find its cause.
#[derive(Debug, Clone, PartialEq, Eq)]
pub enum Error {
    /// An ancestor named by `inherits` is not a known palette: `(ancestor, palette)`.
    NoInherit(String, String),
    /// The palette asked for is not known.
    NoPalette(String),
    /// A palette is, through its ancestors, its own ancestor.
    InheritanceCycle(String),
    /// A palette variable refers back to itself through other variables.
    CyclicReference(String),
    /// A palette that is to come from a file was not read.
    NotFile(String),
    /// A marker body without the `:` that parts its color from its format.
    FailedToParseValue(String),
    /// A marker that starts at this byte offset is not closed.
    FailedToFindSuffix(usize),
    /// The color that a marker names is not in the palette.
    FailedToGetColor(String),
    /// An output format that does not exist.
    FailedToParseFormat(String),
    /// A color literal in none of the known notations, or a palette variable that is not there.
    FailedToParseColor(String),
    /// A functional literal with the wrong number of parameters or one that is no number.
    FailedToParseColorParams(String),
}

/// `Error` with its text as characters.
pub enum ErrorView {
    NoInherit(Seq<char>, Seq<char>),
    NoPalette(Seq<char>),
    InheritanceCycle(Seq<char>),
    CyclicReference(Seq<char>),
    NotFile(Seq<char>),
    FailedToParseValue(Seq<char>),
    FailedToFindSuffix(usize),
    FailedToGetColor(Seq<char>),
    FailedToParseFormat(Seq<char>),
    FailedToParseColor(Seq<char>),
    FailedToParseColorParams(Seq<char>),
}

impl View for Error {
    type V = ErrorView;

    open spec fn view(&self) -> ErrorView {
        match self {
            Error::NoInherit(a, b) => ErrorView::NoInherit(a@, b@),
            Error::NoPalette(a) => ErrorView::NoPalette(a@),
            Error::InheritanceCycle(a) => ErrorView::InheritanceCycle(a@),
            Error::CyclicReference(a) => ErrorView::CyclicReference(a@),
            Error::NotFile(a) => ErrorView::NotFile(a@),
            Error::FailedToParseValue(a) => ErrorView::FailedToParseValue(a@),
            Error::FailedToFindSuffix(n) => ErrorView::FailedToFindSuffix(*n),
            Error::FailedToGetColor(a) => ErrorView::FailedToGetColor(a@),
            Error::FailedToParseFormat(a) => ErrorView::FailedToParseFormat(a@),
            Error::FailedToParseColor(a) => ErrorView::FailedToParseColor(a@),
            Error::FailedToParseColorParams(a) => ErrorView::FailedToParseColorParams(a@),
        }
    }
}

/// A result of text, seen as characters.
pub open spec fn text_result(r: Result<String, Error>) -> Result<Seq<char>, ErrorView> {
    match r {
        Ok(s) => Ok(s@),
        Err(e) => Err(e@),
    }
}

} // verus!
