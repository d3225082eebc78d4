//! The failures that the framework tells apart.
use crate::fields::{Group, StructuredErrors};
use vstd::prelude::*;

verus! {

/// A failure, by kind.
#[derive(Debug, PartialEq, Eq)]
pub enum Error {
    /// A stage of start-up or an initializer failed before serving began.
    /// Start-up is given up; nothing is tried again.
    Startup(String),
    /// A structured validation failure, taken back out of the text that
    /// carried it. It can be shown field by field.
    Validation(StructuredErrors),
    /// A text that carries no structured validation failure. It is kept as
    /// it came.
    Opaque(String),
}

/// What an [`Error`] holds, as plain values.
pub enum ErrorView {
    Startup(Seq<char>),
    Validation(Seq<Group>),
    Opaque(Seq<char>),
}

impl View for Error {
    type V = ErrorView;

    open spec fn view(&self) -> ErrorView {
        match self {
            Error::Startup(text) => ErrorView::Startup(text@),
            Error::Validation(errors) => ErrorView::Validation(errors@),
            Error::Opaque(text) => ErrorView::Opaque(text@),
        }
    }
}

} // verus!
