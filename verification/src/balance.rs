//! Laws on parentheses: what the nesting depth of the tokens says of the
//! outcome of a parse, and of the place that an error names.

use crate::escape::resolution_of;
use crate::parser::{
    forms_from, lemma_forms_bounds, parse_of, FormsView, ParseErrorView, StopView,
};
use crate::sexp::{read_of, ErrorView};
use crate::text::{is_span, slice_of};
use crate::tokenizer::{lemma_tokens_well_formed, tokens_of, TokenView};
use vstd::prelude::*;

verus! {

/// The number of opening parentheses among the first `k` tokens.
pub open spec fn opens(tokens: Seq<TokenView>, k: int) -> int
    decreases k,
{
    if k <= 0 {
        0
    } else {
        opens(tokens, k - 1) + if tokens[k - 1] is OpenParen {
            1int
        } else {
            0int
        }
    }
}

/// The number of closing parentheses among the first `k` tokens.
pub open spec fn closes(tokens: Seq<TokenView>, k: int) -> int
    decreases k,
{
    if k <= 0 {
        0
    } else {
        closes(tokens, k - 1) + if tokens[k - 1] is CloseParen {
            1int
        } else {
            0int
        }
    }
}

/// The nesting depth after the first `k` tokens: the parentheses opened so
/// far, less those closed.
pub open spec fn depth(tokens: Seq<TokenView>, k: int) -> int {
    opens(tokens, k) - closes(tokens, k)
}

/// No closing parenthesis comes without an opening one before it, and every
/// opening parenthesis is closed.
pub open spec fn balanced(tokens: Seq<TokenView>) -> bool {
    &&& forall|k: int| 0 <= k <= tokens.len() ==> #[trigger] depth(tokens, k) >= 0
    &&& depth(tokens, tokens.len() as int) == 0
}

/// From the token of index `at` up to that of index `upto`, the depth does not
/// fall below what it is at `at`.
pub open spec fn stays_open(tokens: Seq<TokenView>, at: int, upto: int) -> bool {
    forall|j: int| at <= j <= upto ==> #[trigger] depth(tokens, j) >= depth(tokens, at)
}

/// The token is no string literal, or its body in `text` resolves.
pub open spec fn resolvable(text: Seq<char>, token: TokenView) -> bool {
    match token {
        TokenView::StringLiteral { start, end } => resolution_of(slice_of(text, start, end)) is Some,
        _ => true,
    }
}

/// Every string literal among the tokens of index `from` up to `to`, `to`
/// left out, resolves.
pub open spec fn resolves(text: Seq<char>, tokens: Seq<TokenView>, from: int, to: int) -> bool {
    forall|i: int| from <= i < to ==> resolvable(text, #[trigger] tokens[i])
}

/// The token of index `o`, at or after `at`, is the opening parenthesis at the
/// offset `open`; it is never closed, and whatever is opened after it is
/// closed: it is the innermost parenthesis that is left open.
pub open spec fn innermost_unclosed(tokens: Seq<TokenView>, at: int, o: int, open: int) -> bool {
    &&& at <= o < tokens.len()
    &&& tokens[o] == TokenView::OpenParen(open)
    &&& forall|j: int| o < j <= tokens.len() ==> #[trigger] depth(tokens, j) > depth(tokens, o)
    &&& depth(tokens, tokens.len() as int) == depth(tokens, o) + 1
}

/// The token of index `i`, at or after `at`, is the string literal at
/// `start..end`; its body does not resolve, every literal from `at` to it
/// does, and no closing parenthesis from `at` to it lacks an opening one.
pub open spec fn first_bad_literal(
    text: Seq<char>,
    tokens: Seq<TokenView>,
    at: int,
    i: int,
    start: int,
    end: int,
) -> bool {
    &&& at <= i < tokens.len()
    &&& tokens[i] == TokenView::StringLiteral { start, end }
    &&& !resolvable(text, tokens[i])
    &&& resolves(text, tokens, at, i)
    &&& stays_open(tokens, at, i)
}

/// The token of index `c`, at or after `at`, is the closing parenthesis at the
/// offset `close`, and the first to close what was not opened from `at` on.
pub open spec fn first_extra_close(tokens: Seq<TokenView>, at: int, c: int, close: int) -> bool {
    &&& at <= c < tokens.len()
    &&& tokens[c] == TokenView::CloseParen(close)
    &&& stays_open(tokens, at, c)
    &&& depth(tokens, c) == depth(tokens, at)
}

/// What the run of forms from `at` says of the tokens from `at` on.
pub open spec fn run_outcome(text: Seq<char>, tokens: Seq<TokenView>, at: int) -> bool {
    let count = tokens.len() as int;
    let outcome = forms_from(text, tokens, at);
    &&& outcome matches Ok(run) ==> {
        &&& at <= run.next <= count
        &&& resolves(text, tokens, at, run.next)
        &&& run.stop matches StopView::CloseParen(close) ==> first_extra_close(
            tokens,
            at,
            run.next - 1,
            close,
        )
        &&& run.stop is EndOfInput ==> {
            &&& run.next == count
            &&& stays_open(tokens, at, count)
            &&& depth(tokens, count) == depth(tokens, at)
        }
    }
    &&& outcome matches Err(ParseErrorView::UnclosedParen(open)) ==> {
        &&& resolves(text, tokens, at, count)
        &&& stays_open(tokens, at, count)
        &&& exists|o: int| #[trigger] innermost_unclosed(tokens, at, o, open)
    }
    &&& outcome matches Err(ParseErrorView::UnknownEscape { start, end }) ==> exists|i: int|
        #[trigger] first_bad_literal(text, tokens, at, i, start, end)
    &&& !(outcome matches Err(ParseErrorView::ExtraCloseParen(_)))
}

/// A run of forms ends at the first closing parenthesis that it did not open,
/// or with the tokens; it fails at the first string literal that does not
/// resolve, or, where the tokens end with a parenthesis open, at the innermost
/// of those left open.
pub proof fn lemma_run_outcome(text: Seq<char>, tokens: Seq<TokenView>, at: int)
    requires
        0 <= at <= tokens.len(),
    ensures
        run_outcome(text, tokens, at),
    decreases tokens.len() - at,
{
    let count = tokens.len() as int;
    if at < count {
        lemma_run_outcome(text, tokens, at + 1);
        lemma_forms_bounds(text, tokens, at + 1);
        let inside = at + 1;
        let rest = forms_from(text, tokens, inside);
        match tokens[at] {
            TokenView::CloseParen(_) => {},
            TokenView::OpenParen(open) => {
                match rest {
                    Err(ParseErrorView::UnclosedParen(inner_open)) => {
                        let o = choose|o: int| innermost_unclosed(tokens, inside, o, inner_open);
                        assert(innermost_unclosed(tokens, at, o, inner_open));
                    },
                    Err(ParseErrorView::UnknownEscape { start, end }) => {
                        let i = choose|i: int|
                            first_bad_literal(text, tokens, inside, i, start, end);
                        assert(first_bad_literal(text, tokens, at, i, start, end));
                    },
                    Err(ParseErrorView::ExtraCloseParen(_)) => {},
                    Ok(inner) => {
                        if inner.stop is CloseParen {
                            let next = inner.next;
                            lemma_run_outcome(text, tokens, next);
                            assert(stays_open(tokens, at, next));
                            match forms_from(text, tokens, next) {
                                Ok(run) => {
                                    assert(stays_open(tokens, at, run.next - 1));
                                    assert(resolves(text, tokens, at, run.next));
                                },
                                Err(ParseErrorView::UnclosedParen(later_open)) => {
                                    let o = choose|o: int|
                                        innermost_unclosed(tokens, next, o, later_open);
                                    assert(innermost_unclosed(tokens, at, o, later_open));
                                    assert(resolves(text, tokens, at, count));
                                },
                                Err(ParseErrorView::UnknownEscape { start, end }) => {
                                    let i = choose|i: int|
                                        first_bad_literal(text, tokens, next, i, start, end);
                                    assert(first_bad_literal(text, tokens, at, i, start, end));
                                },
                                Err(ParseErrorView::ExtraCloseParen(_)) => {},
                            }
                        } else {
                            assert(innermost_unclosed(tokens, at, at, open));
                            assert(stays_open(tokens, at, count));
                            assert(resolves(text, tokens, at, count));
                            lemma_unclosed_here(text, tokens, at, open);
                        }
                    },
                }
            },
            TokenView::BareAtom { .. } => {
                lemma_atom_outcome(text, tokens, at);
            },
            TokenView::StringLiteral { start: from, end: to } => {
                if resolvable(text, tokens[at]) {
                    lemma_atom_outcome(text, tokens, at);
                } else {
                    assert(first_bad_literal(text, tokens, at, at, from, to));
                    lemma_bad_literal_here(text, tokens, at, from, to);
                }
            },
        }
    }
}

/// The step of `lemma_run_outcome` where the run fails at its first token,
/// a parenthesis that is left open.
proof fn lemma_unclosed_here(text: Seq<char>, tokens: Seq<TokenView>, at: int, open: int)
    requires
        forms_from(text, tokens, at) == Err::<FormsView, _>(ParseErrorView::UnclosedParen(open)),
        resolves(text, tokens, at, tokens.len() as int),
        stays_open(tokens, at, tokens.len() as int),
        innermost_unclosed(tokens, at, at, open),
    ensures
        run_outcome(text, tokens, at),
{
    let outcome = forms_from(text, tokens, at);
    assert(innermost_unclosed(tokens, at, at, outcome->Err_0->UnclosedParen_0));
}

/// The step of `lemma_run_outcome` where the run fails at its first token,
/// a string literal that does not resolve.
proof fn lemma_bad_literal_here(
    text: Seq<char>,
    tokens: Seq<TokenView>,
    at: int,
    start: int,
    end: int,
)
    requires
        forms_from(text, tokens, at) == Err::<FormsView, _>(
            ParseErrorView::UnknownEscape { start, end },
        ),
        first_bad_literal(text, tokens, at, at, start, end),
    ensures
        run_outcome(text, tokens, at),
{
    let outcome = forms_from(text, tokens, at);
    assert(first_bad_literal(text, tokens, at, at, outcome->Err_0->start, outcome->Err_0->end));
}

/// The step of `lemma_run_outcome` over a token that is a form by itself.
proof fn lemma_atom_outcome(text: Seq<char>, tokens: Seq<TokenView>, at: int)
    requires
        0 <= at < tokens.len(),
        tokens[at] is BareAtom || tokens[at] is StringLiteral,
        resolvable(text, tokens[at]),
        run_outcome(text, tokens, at + 1),
    ensures
        run_outcome(text, tokens, at),
{
    let count = tokens.len() as int;
    let inside = at + 1;
    lemma_forms_bounds(text, tokens, inside);
    assert(depth(tokens, at + 1) == depth(tokens, at));
    match forms_from(text, tokens, at + 1) {
        Ok(run) => {
            assert(resolves(text, tokens, at, run.next));
            assert(stays_open(tokens, at, run.next - 1));
        },
        Err(ParseErrorView::UnclosedParen(open)) => {
            let o = choose|o: int| innermost_unclosed(tokens, inside, o, open);
            assert(innermost_unclosed(tokens, at, o, open));
            assert(resolves(text, tokens, at, count));
        },
        Err(ParseErrorView::UnknownEscape { start, end }) => {
            let i = choose|i: int| first_bad_literal(text, tokens, inside, i, start, end);
            assert(first_bad_literal(text, tokens, at, i, start, end));
        },
        Err(ParseErrorView::ExtraCloseParen(_)) => {},
    }
}

/// What the outcome of a parse says of the tokens, kind by kind.
///
/// The parse succeeds exactly on balanced tokens whose string literals all
/// resolve. It fails at whichever comes first of a string literal that does
/// not resolve and a closing parenthesis without an opening one. Where
/// neither occurs and a parenthesis is left open, it fails at the innermost
/// of those left open.
pub proof fn lemma_parse_outcome(text: Seq<char>, tokens: Seq<TokenView>)
    ensures
        match parse_of(text, tokens) {
            Ok(_) => balanced(tokens) && resolves(text, tokens, 0, tokens.len() as int),
            Err(ParseErrorView::ExtraCloseParen(close)) => exists|c: int|
                first_extra_close(tokens, 0, c, close) && resolves(text, tokens, 0, c),
            Err(ParseErrorView::UnknownEscape { start, end }) => exists|i: int|
                first_bad_literal(text, tokens, 0, i, start, end),
            Err(ParseErrorView::UnclosedParen(open)) => {
                &&& resolves(text, tokens, 0, tokens.len() as int)
                &&& stays_open(tokens, 0, tokens.len() as int)
                &&& exists|o: int| innermost_unclosed(tokens, 0, o, open)
            },
        },
        balanced(tokens) && resolves(text, tokens, 0, tokens.len() as int) ==> parse_of(
            text,
            tokens,
        ) is Ok,
{
    lemma_run_outcome(text, tokens, 0);
    match forms_from(text, tokens, 0) {
        Ok(run) => {
            if let StopView::CloseParen(close) = run.stop {
                assert(first_extra_close(tokens, 0, run.next - 1, close));
                assert(depth(tokens, run.next) < 0);
            }
        },
        Err(ParseErrorView::UnclosedParen(open)) => {},
        Err(ParseErrorView::UnknownEscape { start, end }) => {
            let i = choose|i: int| first_bad_literal(text, tokens, 0, i, start, end);
            assert(!resolvable(text, tokens[i]));
        },
        Err(ParseErrorView::ExtraCloseParen(_)) => {},
    }
}

/// Balanced tokens hold as many opening parentheses as closing ones, and
/// their parse raises no error on parentheses: it succeeds, or it fails on a
/// string literal.
pub proof fn lemma_balanced_tokens(text: Seq<char>, tokens: Seq<TokenView>)
    requires
        balanced(tokens),
    ensures
        opens(tokens, tokens.len() as int) == closes(tokens, tokens.len() as int),
        !(parse_of(text, tokens) matches Err(ParseErrorView::UnclosedParen(_))),
        !(parse_of(text, tokens) matches Err(ParseErrorView::ExtraCloseParen(_))),
{
    lemma_parse_outcome(text, tokens);
    match parse_of(text, tokens) {
        Err(ParseErrorView::ExtraCloseParen(close)) => {
            let c = choose|c: int|
                first_extra_close(tokens, 0, c, close) && resolves(text, tokens, 0, c);
            assert(depth(tokens, c + 1) < 0);
        },
        Err(ParseErrorView::UnclosedParen(open)) => {
            let o = choose|o: int| innermost_unclosed(tokens, 0, o, open);
            assert(depth(tokens, o) >= 0);
        },
        _ => {},
    }
}

/// A text whose tokens are balanced reads without an error on parentheses,
/// and holds as many opening parentheses as closing ones.
pub proof fn lemma_balanced_text(text: Seq<char>)
    requires
        tokens_of(text) matches Ok(tokens) && balanced(tokens),
    ensures
        tokens_of(text) matches Ok(tokens) && opens(tokens, tokens.len() as int) == closes(
            tokens,
            tokens.len() as int,
        ),
        read_of(text) is Ok || read_of(text) matches Err(ErrorView::UnknownEscape { .. }),
{
    let tokens = tokens_of(text)->Ok_0;
    lemma_balanced_tokens(text, tokens);
}

/// The place that an error names lies in the text, on whole characters: the
/// parenthesis or the quote that is to blame, or the body of the string
/// literal.
pub proof fn lemma_error_in_text(text: Seq<char>)
    ensures
        match read_of(text) {
            Ok(_) => true,
            Err(ErrorView::UnclosedParen(at)) => is_span(text, at, at + 1),
            Err(ErrorView::ExtraCloseParen(at)) => is_span(text, at, at + 1),
            Err(ErrorView::UnclosedString(at)) => is_span(text, at, at + 1),
            Err(ErrorView::UnknownEscape { start, end }) => is_span(text, start, end),
        },
{
    lemma_tokens_well_formed(text);
    if let Ok(tokens) = tokens_of(text) {
        lemma_parse_outcome(text, tokens);
        match parse_of(text, tokens) {
            Ok(_) => {},
            Err(ParseErrorView::ExtraCloseParen(close)) => {
                let c = choose|c: int|
                    first_extra_close(tokens, 0, c, close) && resolves(text, tokens, 0, c);
                assert(tokens[c].lies_in(text));
            },
            Err(ParseErrorView::UnclosedParen(open)) => {
                let o = choose|o: int| innermost_unclosed(tokens, 0, o, open);
                assert(tokens[o].lies_in(text));
            },
            Err(ParseErrorView::UnknownEscape { start, end }) => {
                let i = choose|i: int| first_bad_literal(text, tokens, 0, i, start, end);
                assert(tokens[i].lies_in(text));
            },
        }
    }
}

} // verus!
