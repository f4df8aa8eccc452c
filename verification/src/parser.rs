//! The parser: recursive descent over the tokens of a text, one level of
//! recursion for each level of parentheses.

use crate::escape::{resolution_of, resolve_string_literal};
use crate::sexp::{lemma_list_view, lemma_sexp_views_push, sexp_views, Sexp, SexpView};
use crate::text::{is_span, is_span_of, slice, slice_of};
use crate::tokenizer::{token_views, Token, TokenView};
use std::ops::Range;
use vstd::prelude::*;

verus! {

/// The ways in which a sequence of tokens fails to parse, each with the byte
/// offset or range in the text that is to blame.
#[derive(Debug, PartialEq, Eq)]
pub enum ParseError {
    UnclosedParen(usize),
    ExtraCloseParen(usize),
    UnknownEscape(Range<usize>),
}

/// A parse error, with its offsets as mathematical integers.
pub enum ParseErrorView {
    UnclosedParen(int),
    ExtraCloseParen(int),
    UnknownEscape { start: int, end: int },
}

impl View for ParseError {
    type V = ParseErrorView;

    open spec fn view(&self) -> ParseErrorView {
        match self {
            ParseError::UnclosedParen(at) => ParseErrorView::UnclosedParen(*at as int),
            ParseError::ExtraCloseParen(at) => ParseErrorView::ExtraCloseParen(*at as int),
            ParseError::UnknownEscape(range) => ParseErrorView::UnknownEscape {
                start: range.start as int,
                end: range.end as int,
            },
        }
    }
}

/// The atom that a string literal at `range` becomes, given what its body
/// resolved to: the resolved text, or the error that blames the whole body.
pub fn literal_atom(range: &Range<usize>, resolved: Option<String>) -> (result: Result<
    Sexp,
    ParseError,
>)
    ensures
        match resolved {
            Some(text) => result matches Ok(atom) && atom@ == SexpView::Atom(text@),
            None => result matches Err(error) && error@ == (ParseErrorView::UnknownEscape {
                start: range.start as int,
                end: range.end as int,
            }),
        },
{
    match resolved {
        Some(text) => Ok(Sexp::Atom(text)),
        None => Err(ParseError::UnknownEscape(range.start..range.end)),
    }
}

/// Why a run of forms ended: at a closing parenthesis, whose offset is kept,
/// or because the tokens ran out.
#[derive(Debug, PartialEq, Eq)]
pub enum StopReason {
    CloseParen(usize),
    EndOfInput,
}

pub enum StopView {
    CloseParen(int),
    EndOfInput,
}

impl View for StopReason {
    type V = StopView;

    open spec fn view(&self) -> StopView {
        match self {
            StopReason::CloseParen(at) => StopView::CloseParen(*at as int),
            StopReason::EndOfInput => StopView::EndOfInput,
        }
    }
}

/// A run of forms: the forms, the index of the token after the run, and why
/// the run ended there.
pub struct FormsView {
    pub forms: Seq<SexpView>,
    pub next: int,
    pub stop: StopView,
}

/// The ranges of the atoms and string literals among `tokens` are ranges of
/// whole characters of `text`.
pub open spec fn tokens_fit(text: Seq<char>, tokens: Seq<TokenView>) -> bool {
    forall|i: int|
        0 <= i < tokens.len() ==> match #[trigger] tokens[i] {
            TokenView::BareAtom { start, end } => is_span(text, start, end),
            TokenView::StringLiteral { start, end } => is_span(text, start, end),
            _ => true,
        }
}

/// Whether the ranges of the atoms and string literals among `tokens` are
/// ranges of whole characters of `input`, as the parser asks.
pub fn fit(input: &str, tokens: &Vec<Token>) -> (fits: bool)
    ensures
        fits == tokens_fit(input@, token_views(tokens@)),
{
    let ghost views = token_views(tokens@);
    for n in 0..tokens.len()
        invariant
            views == token_views(tokens@),
            forall|i: int|
                0 <= i < n ==> match #[trigger] views[i] {
                    TokenView::BareAtom { start, end } => is_span(input@, start, end),
                    TokenView::StringLiteral { start, end } => is_span(input@, start, end),
                    _ => true,
                },
    {
        assert(views[n as int] == tokens@[n as int]@);
        let fits = match &tokens[n] {
            Token::BareAtom(range) => is_span_of(input, range.start, range.end),
            Token::StringLiteral(range) => is_span_of(input, range.start, range.end),
            _ => true,
        };
        if !fits {
            return false;
        }
    }
    true
}

/// A run of forms that follows the forms `before`.
pub open spec fn after(before: Seq<SexpView>, rest: Result<FormsView, ParseErrorView>) -> Result<
    FormsView,
    ParseErrorView,
> {
    match rest {
        Ok(run) => Ok(FormsView { forms: before + run.forms, next: run.next, stop: run.stop }),
        Err(error) => Err(error),
    }
}

/// The run of forms that starts at the token of index `at`. It ends after the
/// first closing parenthesis that no parenthesis of the run opens, or at the
/// end of the tokens. An opening parenthesis whose own run ends with the
/// tokens is the error `UnclosedParen`; a string literal whose body does not
/// resolve is the error `UnknownEscape`.
///
/// The test `at < inner.next <= tokens.len()` holds always (`lemma_forms_bounds`); it is there
/// to show that the definition is well founded.
pub open spec fn forms_from(text: Seq<char>, tokens: Seq<TokenView>, at: int) -> Result<
    FormsView,
    ParseErrorView,
>
    decreases tokens.len() - at,
{
    if at < 0 || at >= tokens.len() {
        Ok(FormsView { forms: Seq::empty(), next: at, stop: StopView::EndOfInput })
    } else {
        match tokens[at] {
            TokenView::CloseParen(close) => Ok(
                FormsView { forms: Seq::empty(), next: at + 1, stop: StopView::CloseParen(close) },
            ),
            TokenView::OpenParen(open) => match forms_from(text, tokens, at + 1) {
                Err(error) => Err(error),
                Ok(inner) => if inner.stop is CloseParen && at < inner.next <= tokens.len() {
                    after(seq![SexpView::List(inner.forms)], forms_from(text, tokens, inner.next))
                } else {
                    Err(ParseErrorView::UnclosedParen(open))
                },
            },
            TokenView::BareAtom { start, end } => after(
                seq![SexpView::Atom(slice_of(text, start, end))],
                forms_from(text, tokens, at + 1),
            ),
            TokenView::StringLiteral { start, end } => match resolution_of(
                slice_of(text, start, end),
            ) {
                Some(resolved) => after(
                    seq![SexpView::Atom(resolved)],
                    forms_from(text, tokens, at + 1),
                ),
                None => Err(ParseErrorView::UnknownEscape { start, end }),
            },
        }
    }
}

/// The forms that `tokens` stand for in `text`: the run from the first token,
/// which has to end with the tokens. A closing parenthesis that ends it
/// earlier is the error `ExtraCloseParen`.
pub open spec fn parse_of(text: Seq<char>, tokens: Seq<TokenView>) -> Result<
    Seq<SexpView>,
    ParseErrorView,
> {
    match forms_from(text, tokens, 0) {
        Ok(run) => match run.stop {
            StopView::EndOfInput => Ok(run.forms),
            StopView::CloseParen(close) => Err(ParseErrorView::ExtraCloseParen(close)),
        },
        Err(error) => Err(error),
    }
}

/// A run ends at or after the token where it starts and within the tokens:
/// past a closing parenthesis, or at the end.
pub proof fn lemma_forms_bounds(text: Seq<char>, tokens: Seq<TokenView>, at: int)
    requires
        0 <= at <= tokens.len(),
    ensures
        forms_from(text, tokens, at) matches Ok(run) ==> {
            &&& at <= run.next <= tokens.len()
            &&& run.stop is CloseParen ==> at < run.next
            &&& run.stop is EndOfInput ==> run.next == tokens.len()
        },
    decreases tokens.len() - at,
{
    if at < tokens.len() {
        lemma_forms_bounds(text, tokens, at + 1);
        match tokens[at] {
            TokenView::OpenParen(_) => {
                if let Ok(inner) = forms_from(text, tokens, at + 1) {
                    if inner.stop is CloseParen {
                        lemma_forms_bounds(text, tokens, inner.next);
                    }
                }
            },
            _ => {},
        }
    }
}

/// What a call of `parse_forms` returned, as a run of forms or as an error.
pub open spec fn parsed_forms(result: Result<(Vec<Sexp>, usize, StopReason), ParseError>) -> Result<
    FormsView,
    ParseErrorView,
> {
    match result {
        Ok((forms, next, stop)) => Ok(
            FormsView { forms: sexp_views(forms@), next: next as int, stop: stop@ },
        ),
        Err(error) => Err(error@),
    }
}

/// What a call of `parse_many_tokens` returned, as forms or as an error.
pub open spec fn parsed(result: Result<Vec<Sexp>, ParseError>) -> Result<
    Seq<SexpView>,
    ParseErrorView,
> {
    match result {
        Ok(forms) => Ok(sexp_views(forms@)),
        Err(error) => Err(error@),
    }
}

proof fn lemma_after_after(first: Seq<SexpView>, form: SexpView, rest: Result<FormsView, ParseErrorView>)
    ensures
        after(first, after(seq![form], rest)) == after(first.push(form), rest),
{
    if let Ok(run) = rest {
        assert(first + (seq![form] + run.forms) =~= first.push(form) + run.forms);
    }
}

/// Parses the run of forms that starts at the token of index `at`: the forms,
/// the index of the token after the run, and why the run ended.
pub fn parse_forms(input: &str, tokens: &Vec<Token>, at: usize) -> (result: Result<
    (Vec<Sexp>, usize, StopReason),
    ParseError,
>)
    requires
        at <= tokens.len(),
        tokens_fit(input@, token_views(tokens@)),
    ensures
        parsed_forms(result) == forms_from(input@, token_views(tokens@), at as int),
    decreases tokens.len() - at,
{
    let mut sexps: Vec<Sexp> = Vec::new();
    let mut cursor = at;
    let ghost text = input@;
    let ghost views = token_views(tokens@);
    proof {
        let whole = forms_from(text, views, at as int);
        assert(sexp_views(sexps@) =~= Seq::<SexpView>::empty());
        if let Ok(run) = whole {
            assert(Seq::<SexpView>::empty() + run.forms =~= run.forms);
        }
    }
    while cursor < tokens.len()
        invariant
            text == input@,
            views == token_views(tokens@),
            tokens_fit(text, views),
            at <= cursor <= tokens.len(),
            after(sexp_views(sexps@), forms_from(text, views, cursor as int)) == forms_from(
                text,
                views,
                at as int,
            ),
        decreases tokens.len() - cursor,
    {
        let ghost here = forms_from(text, views, cursor as int);
        let ghost before = sexp_views(sexps@);
        assert(views[cursor as int] == tokens@[cursor as int]@);
        match &tokens[cursor] {
            Token::CloseParen(index) => {
                assert(before + Seq::<SexpView>::empty() =~= before);
                return Ok((sexps, cursor + 1, StopReason::CloseParen(*index)));
            },
            Token::OpenParen(start) => {
                proof {
                    lemma_forms_bounds(text, views, cursor + 1);
                }
                match parse_forms(input, tokens, cursor + 1) {
                    Err(error) => {
                        return Err(error);
                    },
                    Ok((_, _, StopReason::EndOfInput)) => {
                        return Err(ParseError::UnclosedParen(*start));
                    },
                    Ok((forms, rest, StopReason::CloseParen(_))) => {
                        proof {
                            lemma_list_view(forms);
                            lemma_sexp_views_push(sexps@, Sexp::List(forms));
                            lemma_after_after(
                                before,
                                Sexp::List(forms)@,
                                forms_from(text, views, rest as int),
                            );
                        }
                        sexps.push(Sexp::List(forms));
                        cursor = rest;
                    },
                }
            },
            Token::BareAtom(range) => {
                let atom = Sexp::Atom(slice(input, range.start, range.end).to_owned());
                proof {
                    lemma_sexp_views_push(sexps@, atom);
                    lemma_after_after(before, atom@, forms_from(text, views, cursor + 1));
                }
                sexps.push(atom);
                cursor = cursor + 1;
            },
            Token::StringLiteral(range) => {
                let resolved = resolve_string_literal(slice(input, range.start, range.end));
                match literal_atom(range, resolved) {
                    Err(error) => {
                        return Err(error);
                    },
                    Ok(atom) => {
                        proof {
                            lemma_sexp_views_push(sexps@, atom);
                            lemma_after_after(before, atom@, forms_from(text, views, cursor + 1));
                        }
                        sexps.push(atom);
                        cursor = cursor + 1;
                    },
                }
            },
        }
    }
    proof {
        assert(sexp_views(sexps@) + Seq::<SexpView>::empty() =~= sexp_views(sexps@));
    }
    Ok((sexps, cursor, StopReason::EndOfInput))
}

/// Parses the whole of `tokens`, which index into `input`, into the forms
/// that they stand for.
pub fn parse_many_tokens(input: &str, tokens: Vec<Token>) -> (result: Result<Vec<Sexp>, ParseError>)
    requires
        tokens_fit(input@, token_views(tokens@)),
    ensures
        parsed(result) == parse_of(input@, token_views(tokens@)),
{
    match parse_forms(input, &tokens, 0) {
        Err(error) => Err(error),
        Ok((_, _, StopReason::CloseParen(at))) => Err(ParseError::ExtraCloseParen(at)),
        Ok((sexps, _, StopReason::EndOfInput)) => Ok(sexps),
    }
}

} // verus!
