//! The tokens of a MIR dump.

use crate::text::{joined, number_text, numeral};
use vstd::prelude::*;

verus! {

/// A token.
#[derive(Debug, Clone, PartialEq, Eq)]
pub enum Tok {
    /// An identifier or a keyword.
    Word(String),
    Int(i128),
    Punct(char),
    /// `->`.
    Arrow,
    /// The end of the dump.
    Eof,
}

/// A token as a mathematical value.
pub enum TokView {
    Word(Seq<char>),
    Int(i128),
    Punct(char),
    Arrow,
    Eof,
}

impl View for Tok {
    type V = TokView;

    open spec fn view(&self) -> TokView {
        match self {
            Tok::Word(w) => TokView::Word(w@),
            Tok::Int(n) => TokView::Int(*n),
            Tok::Punct(c) => TokView::Punct(*c),
            Tok::Arrow => TokView::Arrow,
            Tok::Eof => TokView::Eof,
        }
    }
}

/// Tokens as mathematical values.
pub open spec fn tok_views(s: Seq<Tok>) -> Seq<TokView> {
    Seq::new(s.len(), |i: int| s[i]@)
}

/// What `Debug` shows of a string: the string in quotes, with escapes.
pub uninterp spec fn quoted(s: Seq<char>) -> Seq<char>;

/// What `Debug` shows of a character: the character in quotes, with escapes.
pub uninterp spec fn quoted_char(c: char) -> Seq<char>;

/// The `Debug` form of `str`, from the standard library: its result is named `quoted`.
#[verifier::external_body]
fn quote(s: &str) -> (text: String)
    ensures
        text@ == quoted(s@),
{
    format!("{:?}", s)
}

/// The `Debug` form of `char`, from the standard library: its result is named `quoted_char`.
#[verifier::external_body]
fn quote_char(c: char) -> (text: String)
    ensures
        text@ == quoted_char(c),
{
    format!("{:?}", c)
}

/// A whole number in decimal digits, with a sign where it is negative.
pub open spec fn signed_numeral(n: int) -> Seq<char> {
    if n < 0 {
        "-"@ + numeral((-n) as nat)
    } else {
        numeral(n as nat)
    }
}

/// A whole number in decimal digits.
pub fn signed_text(n: i128) -> (text: String)
    ensures
        text@ == signed_numeral(n as int),
{
    if n < 0 {
        let size: u128 = (-(n + 1)) as u128 + 1;
        joined("-", number_text(size).as_str())
    } else {
        number_text(n as u128)
    }
}

/// How messages show a token.
pub open spec fn shown(t: TokView) -> Seq<char> {
    match t {
        TokView::Word(w) => "Word("@ + quoted(w) + ")"@,
        TokView::Int(n) => "Int("@ + signed_numeral(n as int) + ")"@,
        TokView::Punct(c) => "Punct("@ + quoted_char(c) + ")"@,
        TokView::Arrow => "Arrow"@,
        TokView::Eof => "Eof"@,
    }
}

impl Tok {
    /// How messages show the token.
    pub fn render(&self) -> (text: String)
        ensures
            text@ == shown(self@),
    {
        match self {
            Tok::Word(w) => joined(joined("Word(", quote(w.as_str()).as_str()).as_str(), ")"),
            Tok::Int(n) => joined(joined("Int(", signed_text(*n).as_str()).as_str(), ")"),
            Tok::Punct(c) => joined(joined("Punct(", quote_char(*c).as_str()).as_str(), ")"),
            Tok::Arrow => "Arrow".to_owned(),
            Tok::Eof => "Eof".to_owned(),
        }
    }
}

} // verus!
