//! The ways in which parsing a layout or a text can fail.

use vstd::prelude::*;

verus! {

/// A piece of text that is no key literal, or no finger label.
#[derive(Debug, PartialEq, Eq)]
pub enum ParseError {
    /// The text matches no literal form of any key.
    UnrecognizedKeyLiteral(String),
    /// The text is no label of a finger.
    UnrecognizedFingerLabel(String),
}

/// A [`ParseError`] with the offending text as a sequence of characters.
pub enum ParseErrorView {
    UnrecognizedKeyLiteral(Seq<char>),
    UnrecognizedFingerLabel(Seq<char>),
}

impl View for ParseError {
    type V = ParseErrorView;

    open spec fn view(&self) -> ParseErrorView {
        match self {
            ParseError::UnrecognizedKeyLiteral(s) => ParseErrorView::UnrecognizedKeyLiteral(s@),
            ParseError::UnrecognizedFingerLabel(s) => ParseErrorView::UnrecognizedFingerLabel(s@),
        }
    }
}

impl ParseError {
    /// An error for the span `[lo, hi)` of `source`, which is no key literal.
    pub fn key_literal(source: &str, lo: usize, hi: usize) -> (e: ParseError)
        requires
            lo <= hi <= source@.len(),
        ensures
            e@ == ParseErrorView::UnrecognizedKeyLiteral(source@.subrange(lo as int, hi as int)),
    {
        ParseError::UnrecognizedKeyLiteral(source.substring_char(lo, hi).to_owned())
    }

    /// An error for the span `[lo, hi)` of `source`, which is no finger label.
    pub fn finger_label(source: &str, lo: usize, hi: usize) -> (e: ParseError)
        requires
            lo <= hi <= source@.len(),
        ensures
            e@ == ParseErrorView::UnrecognizedFingerLabel(source@.subrange(lo as int, hi as int)),
    {
        ParseError::UnrecognizedFingerLabel(source.substring_char(lo, hi).to_owned())
    }

    /// The text that was not recognized.
    pub fn literal(&self) -> (s: &str)
        ensures
            self@ matches ParseErrorView::UnrecognizedKeyLiteral(t) ==> s@ == t,
            self@ matches ParseErrorView::UnrecognizedFingerLabel(t) ==> s@ == t,
    {
        match self {
            ParseError::UnrecognizedKeyLiteral(s) => s.as_str(),
            ParseError::UnrecognizedFingerLabel(s) => s.as_str(),
        }
    }
}

} // verus!
