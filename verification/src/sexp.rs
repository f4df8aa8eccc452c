//! The tree that a text is read into.

use crate::parser::{parse_many_tokens, parse_of, tokens_fit, ParseError, ParseErrorView};
use crate::tokenizer::{
    token_views, tokenize, tokens_of, well_formed, TokenView, TokenizationError,
};
use std::ops::Range;
use vstd::prelude::*;

verus! {

/// An S-expression: an atom, which is a piece of text, or a list of
/// S-expressions. A list owns its children.
#[derive(Debug, PartialEq, Eq)]
pub enum Sexp {
    Atom(String),
    List(Vec<Sexp>),
}

/// An S-expression as a mathematical tree.
pub enum SexpView {
    Atom(Seq<char>),
    List(Seq<SexpView>),
}

impl View for Sexp {
    type V = SexpView;

    open spec fn view(&self) -> SexpView
        decreases self,
    {
        match self {
            Sexp::Atom(text) => SexpView::Atom(text@),
            Sexp::List(forms) => SexpView::List(
                Seq::new(
                    forms@.len(),
                    |i: int|
                        if 0 <= i < forms@.len() {
                            forms@[i]@
                        } else {
                            SexpView::List(Seq::empty())
                        },
                ),
            ),
        }
    }
}

/// The views of a sequence of S-expressions, in order.
pub open spec fn sexp_views(forms: Seq<Sexp>) -> Seq<SexpView> {
    Seq::new(forms.len(), |i: int| forms[i]@)
}

/// The view of a list is the list of the views of its children.
pub proof fn lemma_list_view(forms: Vec<Sexp>)
    ensures
        Sexp::List(forms)@ == SexpView::List(sexp_views(forms@)),
{
    let children = Sexp::List(forms)@->List_0;
    assert(children =~= sexp_views(forms@));
}

/// The views of a sequence that grew by one.
pub proof fn lemma_sexp_views_push(forms: Seq<Sexp>, form: Sexp)
    ensures
        sexp_views(forms.push(form)) == sexp_views(forms).push(form@),
{
    assert(sexp_views(forms.push(form)) =~= sexp_views(forms).push(form@));
}

/// The ways in which a text fails to read, each with the byte offset or range
/// in the text that is to blame.
#[derive(Debug, PartialEq, Eq)]
pub enum Error {
    /// The opening parenthesis at this offset has no closing one.
    UnclosedParen(usize),
    /// The closing parenthesis at this offset has no opening one.
    ExtraCloseParen(usize),
    /// The quote at this offset opens a string literal that never closes.
    UnclosedString(usize),
    /// The body of the string literal at this range holds an escape that is
    /// not supported.
    UnknownEscape(Range<usize>),
}

/// An error, with its offsets as mathematical integers.
pub enum ErrorView {
    UnclosedParen(int),
    ExtraCloseParen(int),
    UnclosedString(int),
    UnknownEscape { start: int, end: int },
}

impl View for Error {
    type V = ErrorView;

    open spec fn view(&self) -> ErrorView {
        match self {
            Error::UnclosedParen(at) => ErrorView::UnclosedParen(*at as int),
            Error::ExtraCloseParen(at) => ErrorView::ExtraCloseParen(*at as int),
            Error::UnclosedString(at) => ErrorView::UnclosedString(*at as int),
            Error::UnknownEscape(range) => ErrorView::UnknownEscape {
                start: range.start as int,
                end: range.end as int,
            },
        }
    }
}

impl ErrorView {
    /// The error that stands for a parse error: the same kind, at the same
    /// place.
    pub open spec fn of_parse_error(error: ParseErrorView) -> ErrorView {
        match error {
            ParseErrorView::UnclosedParen(at) => ErrorView::UnclosedParen(at),
            ParseErrorView::ExtraCloseParen(at) => ErrorView::ExtraCloseParen(at),
            ParseErrorView::UnknownEscape { start, end } => ErrorView::UnknownEscape { start, end },
        }
    }
}

impl Error {
    /// The error that stands for a tokenization error.
    pub fn of_tokenization_error(e: TokenizationError) -> (error: Error)
        ensures
            error@ == ErrorView::UnclosedString(e@),
    {
        match e {
            TokenizationError::UnclosedString(i) => Error::UnclosedString(i),
        }
    }

    /// The error that stands for a parse error.
    pub fn of_parse_error(e: ParseError) -> (error: Error)
        ensures
            error@ == ErrorView::of_parse_error(e@),
    {
        match e {
            ParseError::UnclosedParen(i) => Error::UnclosedParen(i),
            ParseError::ExtraCloseParen(i) => Error::ExtraCloseParen(i),
            ParseError::UnknownEscape(range) => Error::UnknownEscape(range),
        }
    }
}

/// The forms that `text` reads as: its tokens, parsed. A text that does not
/// tokenize fails with `UnclosedString`, whatever its parentheses.
pub open spec fn read_of(text: Seq<char>) -> Result<Seq<SexpView>, ErrorView> {
    match tokens_of(text) {
        Err(start) => Err(ErrorView::UnclosedString(start)),
        Ok(tokens) => match parse_of(text, tokens) {
            Ok(forms) => Ok(forms),
            Err(error) => Err(ErrorView::of_parse_error(error)),
        },
    }
}

/// What a call of `parse_many` returned, as forms or as an error.
pub open spec fn read(result: Result<Vec<Sexp>, Error>) -> Result<Seq<SexpView>, ErrorView> {
    match result {
        Ok(forms) => Ok(sexp_views(forms@)),
        Err(error) => Err(error@),
    }
}

/// Well-formed tokens fit the text that they were cut from.
pub proof fn lemma_well_formed_fit(text: Seq<char>, tokens: Seq<TokenView>)
    requires
        well_formed(text, tokens),
    ensures
        tokens_fit(text, tokens),
{
    assert forall|i: int| 0 <= i < tokens.len() implies match #[trigger] tokens[i] {
        TokenView::BareAtom { start, end } => crate::text::is_span(text, start, end),
        TokenView::StringLiteral { start, end } => crate::text::is_span(text, start, end),
        _ => true,
    } by {
        assert(tokens[i].lies_in(text));
    }
}

/// Reads `input` as a sequence of S-expressions, or reports the first error
/// with its place in `input`.
pub fn parse_many(input: &str) -> (result: Result<Vec<Sexp>, Error>)
    ensures
        read(result) == read_of(input@),
{
    match tokenize(input) {
        Err(error) => Err(Error::of_tokenization_error(error)),
        Ok(tokens) => {
            proof {
                lemma_well_formed_fit(input@, token_views(tokens@));
            }
            match parse_many_tokens(input, tokens) {
                Ok(forms) => Ok(forms),
                Err(error) => Err(Error::of_parse_error(error)),
            }
        },
    }
}

} // verus!
