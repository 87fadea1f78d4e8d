//! The library's error type.
use vstd::prelude::*;
use vstd::string::*;

verus! {

/// What went wrong while reading or writing YAML, with a message for people.
#[derive(Debug)]
pub enum YamlError {
    ParseError(String),
    StringifyError(String),
}

/// The mathematical view of a [`YamlError`]: its kind and its message.
pub enum YamlErrorView {
    ParseError(Seq<char>),
    StringifyError(Seq<char>),
}

impl View for YamlError {
    type V = YamlErrorView;

    open spec fn view(&self) -> YamlErrorView {
        match self {
            YamlError::ParseError(m) => YamlErrorView::ParseError(m@),
            YamlError::StringifyError(m) => YamlErrorView::StringifyError(m@),
        }
    }
}

/// The text that describes an error: its kind, a colon and its message.
pub open spec fn error_text(e: YamlErrorView) -> Seq<char> {
    match e {
        YamlErrorView::ParseError(m) => "parse error: "@ + m,
        YamlErrorView::StringifyError(m) => "stringify error: "@ + m,
    }
}

impl YamlError {
    /// The text that describes this error, such as `parse error: expected scalar`.
    pub fn to_string(&self) -> (s: String)
        ensures
            s@ == error_text(self@),
    {
        match self {
            YamlError::ParseError(m) => {
                let mut s = String::from_str("parse error: ");
                s.append(m.as_str());
                s
            },
            YamlError::StringifyError(m) => {
                let mut s = String::from_str("stringify error: ");
                s.append(m.as_str());
                s
            },
        }
    }
}

} // verus!
