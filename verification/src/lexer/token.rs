//! Tokens produced by the lexer, and their mathematical views.
use vstd::prelude::*;

verus! {

/// One token of YAML text.
#[derive(Debug, PartialEq, Clone)]
pub enum Token<'a> {
    Colon,
    Dash,
    Newline,
    Indent(usize),
    Scalar(&'a str),
    SingleQuoted(String),
    DoubleQuoted(String),
    DocStart,
    DocEnd,
    Eof,
}

/// A token as a mathematical value: text is a sequence of characters.
pub enum TokenView {
    Colon,
    Dash,
    Newline,
    Indent(nat),
    Scalar(Seq<char>),
    SingleQuoted(Seq<char>),
    DoubleQuoted(Seq<char>),
    DocStart,
    DocEnd,
    Eof,
}

impl<'a> View for Token<'a> {
    type V = TokenView;

    open spec fn view(&self) -> TokenView {
        match self {
            Token::Colon => TokenView::Colon,
            Token::Dash => TokenView::Dash,
            Token::Newline => TokenView::Newline,
            Token::Indent(n) => TokenView::Indent(*n as nat),
            Token::Scalar(s) => TokenView::Scalar(s@),
            Token::SingleQuoted(s) => TokenView::SingleQuoted(s@),
            Token::DoubleQuoted(s) => TokenView::DoubleQuoted(s@),
            Token::DocStart => TokenView::DocStart,
            Token::DocEnd => TokenView::DocEnd,
            Token::Eof => TokenView::Eof,
        }
    }
}

/// A token with the line and column at which the lexer stood after reading it.
#[derive(Debug, Clone)]
pub struct SpannedToken<'a> {
    pub token: Token<'a>,
    pub line: usize,
    pub col: usize,
}

/// The mathematical view of a [`SpannedToken`].
pub struct SpannedView {
    pub token: TokenView,
    pub line: nat,
    pub col: nat,
}

impl<'a> View for SpannedToken<'a> {
    type V = SpannedView;

    open spec fn view(&self) -> SpannedView {
        SpannedView { token: self.token@, line: self.line as nat, col: self.col as nat }
    }
}

} // verus!
