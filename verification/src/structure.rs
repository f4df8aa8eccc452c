//! Laws on the tree: read off in order, its parentheses and atoms are the
//! tokens that it was parsed from.

use crate::escape::resolution_of;
use crate::parser::{forms_from, lemma_forms_bounds, parse_of, FormsView, StopView};
use crate::sexp::SexpView;
use crate::text::slice_of;
use crate::tokenizer::TokenView;
use vstd::prelude::*;

verus! {

/// What a token says, its place in the text left aside: a parenthesis, or the
/// text of an atom.
pub enum Word {
    Open,
    Close,
    Atom(Seq<char>),
}

/// What `token` says in `text`. The text of a bare atom is its range of the
/// text; that of a string literal is what its body resolves to.
pub open spec fn word_of(text: Seq<char>, token: TokenView) -> Word {
    match token {
        TokenView::OpenParen(_) => Word::Open,
        TokenView::CloseParen(_) => Word::Close,
        TokenView::BareAtom { start, end } => Word::Atom(slice_of(text, start, end)),
        TokenView::StringLiteral { start, end } => Word::Atom(
            resolution_of(slice_of(text, start, end))->Some_0,
        ),
    }
}

/// What the tokens of index `from` up to `to` say, `to` left out.
pub open spec fn words_between(text: Seq<char>, tokens: Seq<TokenView>, from: int, to: int) -> Seq<
    Word,
> {
    tokens.subrange(from, to).map_values(|token: TokenView| word_of(text, token))
}

/// The forms written out: an atom as its text, a list as its forms between
/// two parentheses.
pub open spec fn written(forms: Seq<SexpView>) -> Seq<Word>
    decreases forms,
{
    if forms.len() == 0 {
        Seq::empty()
    } else {
        let rest = written(forms.subrange(1, forms.len() as int));
        match forms[0] {
            SexpView::Atom(text) => seq![Word::Atom(text)] + rest,
            SexpView::List(inner) => seq![Word::Open] + written(inner) + seq![Word::Close] + rest,
        }
    }
}

/// No tokens say nothing.
proof fn lemma_words_none(text: Seq<char>, tokens: Seq<TokenView>, at: int)
    requires
        0 <= at <= tokens.len(),
    ensures
        words_between(text, tokens, at, at) == Seq::<Word>::empty(),
{
    assert(words_between(text, tokens, at, at) =~= Seq::<Word>::empty());
}

/// What tokens say starts with what the first of them says.
proof fn lemma_words_first(text: Seq<char>, tokens: Seq<TokenView>, from: int, to: int)
    requires
        0 <= from < to <= tokens.len(),
    ensures
        words_between(text, tokens, from, to) == seq![word_of(text, tokens[from])] + words_between(
            text,
            tokens,
            from + 1,
            to,
        ),
{
    assert(words_between(text, tokens, from, to) =~= seq![word_of(text, tokens[from])]
        + words_between(text, tokens, from + 1, to));
}

/// What tokens say is what the first of them say, then what the others say.
proof fn lemma_words_join(text: Seq<char>, tokens: Seq<TokenView>, from: int, mid: int, to: int)
    requires
        0 <= from <= mid <= to <= tokens.len(),
    ensures
        words_between(text, tokens, from, to) == words_between(text, tokens, from, mid)
            + words_between(text, tokens, mid, to),
{
    assert(words_between(text, tokens, from, to) =~= words_between(text, tokens, from, mid)
        + words_between(text, tokens, mid, to));
}

/// Forms after a first one are written after it.
proof fn lemma_written_first(form: SexpView, rest: Seq<SexpView>)
    ensures
        written(seq![form] + rest) == written(seq![form]) + written(rest),
{
    let all = seq![form] + rest;
    let one = seq![form];
    assert(all.subrange(1, all.len() as int) =~= rest);
    assert(one.subrange(1, one.len() as int) =~= Seq::<SexpView>::empty());
    assert(written(Seq::<SexpView>::empty()) == Seq::<Word>::empty());
    match form {
        SexpView::Atom(text) => {
            assert(seq![Word::Atom(text)] + written(rest) =~= (seq![Word::Atom(text)]
                + Seq::<Word>::empty()) + written(rest));
        },
        SexpView::List(inner) => {
            let listed = seq![Word::Open] + written(inner) + seq![Word::Close];
            assert(listed + written(rest) =~= (listed + Seq::<Word>::empty()) + written(rest));
        },
    }
}

/// The index of the token at which the run from `at` ends: its closing
/// parenthesis, or the end of the tokens.
pub open spec fn run_end(next: int, stop: StopView) -> int {
    match stop {
        StopView::CloseParen(_) => next - 1,
        StopView::EndOfInput => next,
    }
}

/// A run of forms, written out, is what the tokens of the run say.
pub proof fn lemma_run_written(text: Seq<char>, tokens: Seq<TokenView>, at: int)
    requires
        0 <= at <= tokens.len(),
    ensures
        forms_from(text, tokens, at) matches Ok(run) ==> {
            &&& at <= run_end(run.next, run.stop) <= tokens.len()
            &&& run.stop is CloseParen ==> tokens[run.next - 1] is CloseParen
            &&& written(run.forms) == words_between(
                text,
                tokens,
                at,
                run_end(run.next, run.stop),
            )
        },
    decreases tokens.len() - at,
{
    lemma_words_none(text, tokens, at);
    lemma_forms_bounds(text, tokens, at);
    if at < tokens.len() {
        let inside = at + 1;
        lemma_run_written(text, tokens, inside);
        lemma_forms_bounds(text, tokens, inside);
        match tokens[at] {
            TokenView::CloseParen(_) => {},
            TokenView::OpenParen(_) => {
                if let Ok(inner) = forms_from(text, tokens, inside) {
                    if inner.stop is CloseParen {
                        let close = inner.next - 1;
                        lemma_run_written(text, tokens, inner.next);
                        lemma_forms_bounds(text, tokens, inner.next);
                        if let Ok(rest) = forms_from(text, tokens, inner.next) {
                            let list = SexpView::List(inner.forms);
                            let end = run_end(rest.next, rest.stop);
                            lemma_written_first(list, rest.forms);
                            lemma_written_list(inner.forms);
                            lemma_words_first(text, tokens, at, close + 1);
                            lemma_words_join(text, tokens, inside, close, close + 1);
                            lemma_words_first(text, tokens, close, close + 1);
                            lemma_words_none(text, tokens, close + 1);
                            lemma_words_join(text, tokens, at, close + 1, end);
                            assert(written(seq![list]) == words_between(
                                text,
                                tokens,
                                at,
                                close + 1,
                            )) by {
                                assert(seq![Word::Open] + written(inner.forms) + seq![Word::Close]
                                    =~= seq![Word::Open] + (written(inner.forms) + (seq![
                                    Word::Close,
                                ] + Seq::<Word>::empty())));
                            }
                        }
                    }
                }
            },
            TokenView::BareAtom { start, end } => {
                if let Ok(rest) = forms_from(text, tokens, inside) {
                    lemma_atom_written(text, tokens, at, slice_of(text, start, end), rest);
                }
            },
            TokenView::StringLiteral { start, end } => {
                if let Some(resolved) = resolution_of(slice_of(text, start, end)) {
                    if let Ok(rest) = forms_from(text, tokens, inside) {
                        lemma_atom_written(text, tokens, at, resolved, rest);
                    }
                }
            },
        }
    }
}

/// A list by itself is written as its forms between two parentheses.
proof fn lemma_written_list(inner: Seq<SexpView>)
    ensures
        written(seq![SexpView::List(inner)]) == seq![Word::Open] + written(inner) + seq![
            Word::Close,
        ],
{
    let one = seq![SexpView::List(inner)];
    assert(one.subrange(1, one.len() as int) =~= Seq::<SexpView>::empty());
    assert(written(Seq::<SexpView>::empty()) == Seq::<Word>::empty());
    let listed = seq![Word::Open] + written(inner) + seq![Word::Close];
    assert(listed + Seq::<Word>::empty() =~= listed);
}

/// The step of `lemma_run_written` over a token that is a form by itself.
proof fn lemma_atom_written(
    text: Seq<char>,
    tokens: Seq<TokenView>,
    at: int,
    atom: Seq<char>,
    rest: FormsView,
)
    requires
        0 <= at < tokens.len(),
        word_of(text, tokens[at]) == Word::Atom(atom),
        at + 1 <= run_end(rest.next, rest.stop) <= tokens.len(),
        written(rest.forms) == words_between(text, tokens, at + 1, run_end(rest.next, rest.stop)),
    ensures
        written(seq![SexpView::Atom(atom)] + rest.forms) == words_between(
            text,
            tokens,
            at,
            run_end(rest.next, rest.stop),
        ),
{
    let one = seq![SexpView::Atom(atom)];
    lemma_written_first(SexpView::Atom(atom), rest.forms);
    assert(one.subrange(1, one.len() as int) =~= Seq::<SexpView>::empty());
    assert(written(Seq::<SexpView>::empty()) == Seq::<Word>::empty());
    assert(written(one) =~= seq![Word::Atom(atom)]);
    lemma_words_first(text, tokens, at, run_end(rest.next, rest.stop));
}

/// The forms that tokens parse into, written out, are what the tokens say:
/// the tree holds every token, in order, and nothing else.
pub proof fn lemma_parse_written(text: Seq<char>, tokens: Seq<TokenView>)
    ensures
        parse_of(text, tokens) matches Ok(forms) ==> written(forms) == words_between(
            text,
            tokens,
            0,
            tokens.len() as int,
        ),
{
    lemma_run_written(text, tokens, 0);
    lemma_forms_bounds(text, tokens, 0);
}

} // verus!
