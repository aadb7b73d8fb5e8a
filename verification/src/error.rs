use vstd::prelude::*;
use crate::arg::{type_text, Type};

verus! {

/// Why a command line could not be read.
#[derive(Debug)]
pub enum Error {
    UnknownArgument(String),
    ExpectedParameter(String),
    TypeError(Type),
}

/// An error with its text as characters.
pub enum ErrorView {
    UnknownArgument(Seq<char>),
    ExpectedParameter(Seq<char>),
    TypeError(Type),
}

impl View for Error {
    type V = ErrorView;

    open spec fn view(&self) -> ErrorView {
        match self {
            Error::UnknownArgument(s) => ErrorView::UnknownArgument(s@),
            Error::ExpectedParameter(s) => ErrorView::ExpectedParameter(s@),
            Error::TypeError(t) => ErrorView::TypeError(*t),
        }
    }
}

/// The message that describes an error.
pub open spec fn error_text(e: ErrorView) -> Seq<char> {
    match e {
        ErrorView::UnknownArgument(a) => "unrecognized argument: "@ + a,
        ErrorView::ExpectedParameter(p) => "expected param: "@ + p,
        ErrorView::TypeError(t) => "parameter must be of type "@ + type_text(t),
    }
}

impl Error {
    /// The message that describes this error.
    pub fn message(&self) -> (s: String)
        ensures
            s@ == error_text(self@),
    {
        let mut s = String::new();
        match self {
            Error::UnknownArgument(arg) => {
                s.append("unrecognized argument: ");
                s.append(arg.as_str());
            },
            Error::ExpectedParameter(param) => {
                s.append("expected param: ");
                s.append(param.as_str());
            },
            Error::TypeError(expected) => {
                s.append("parameter must be of type ");
                let t = expected.to_display_string();
                s.append(t.as_str());
            },
        }
        s
    }
}

impl From<Type> for Error {
    fn from(t: Type) -> (e: Self) {
        Error::TypeError(t)
    }
}

impl vstd::std_specs::convert::FromSpecImpl<Type> for Error {
    open spec fn obeys_from_spec() -> bool {
        true
    }

    open spec fn from_spec(t: Type) -> Self {
        Error::TypeError(t)
    }
}

} // verus!
