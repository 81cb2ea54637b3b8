//! The token type the scanner emits, and the error it reports.

use crate::model::TokenView;
use crate::model::is_reserved_word;
use vstd::prelude::*;
use vstd::string::StringExecFns;

verus! {

/// One classified atomic unit of the input. A token is immutable once
/// produced; its view ties it to the model token in [`TokenView`].
#[derive(Debug, PartialEq)]
pub enum Token {
    Keyword(String),
    Identifier(String),
    Number(i64),
    Operator(char),
    Punctuation(char),
    Whitespace,
    Unknown(char),
}

impl View for Token {
    type V = TokenView;

    open spec fn view(&self) -> TokenView {
        match self {
            Token::Keyword(text) => TokenView::Keyword(text@),
            Token::Identifier(text) => TokenView::Identifier(text@),
            Token::Number(value) => TokenView::Number(*value as int),
            Token::Operator(symbol) => TokenView::Operator(*symbol),
            Token::Punctuation(symbol) => TokenView::Punctuation(*symbol),
            Token::Whitespace => TokenView::Whitespace,
            Token::Unknown(c) => TokenView::Unknown(*c),
        }
    }
}

impl DeepView for Token {
    type V = TokenView;

    open spec fn deep_view(&self) -> TokenView {
        self.view()
    }
}

impl Token {
    /// Whether this token is a keyword.
    pub fn is_keyword(&self) -> (r: bool)
        ensures
            r == (self@ is Keyword),
    {
        matches!(self, Token::Keyword(_))
    }
}

/// The one error the scanner can report: a maximal digit run whose decimal
/// value exceeds the signed 64-bit range. It carries the text of the run and
/// the position (in characters from the start of the scanned text) where the
/// run begins.
#[derive(Debug, PartialEq)]
pub enum LexError {
    NumberOverflow { text: String, position: usize },
}

/// Whether identifier text is a reserved word. The reserved-word set is the
/// fixed lookup set [`crate::model::reserved_words`]; a new keyword is added there and
/// here, without touching the scanner's dispatch.
pub fn text_is_reserved(text: &String) -> (r: bool)
    ensures
        r == is_reserved_word(text@),
{
    proof {
        reveal_strlit("let");
        reveal_strlit("fn");
    }
    let is_let = *text == String::from_str("let");
    let is_fn = *text == String::from_str("fn");
    is_let || is_fn
}

} // verus!
