//! Laws on tokens: which characters of the text each token takes up.

use crate::text::{
    byte_len, byte_offset, lemma_ascii_width, lemma_byte_offset_ends, lemma_byte_offset_step,
    lemma_slice_of_offsets, slice_of,
};
use crate::tokenizer::{interpretation_of, scan, tokens_of, StateView, TokenView};
use vstd::prelude::*;

verus! {

/// The character of index `m` may stand in a bare atom: it is no quote, no
/// parenthesis and no whitespace.
pub open spec fn atom_char(text: Seq<char>, m: int) -> bool {
    interpretation_of(text[m]) is AtomCharacter
}

/// `token` takes up the characters of index `i` up to `j`, `j` left out, and
/// they spell it: a parenthesis is that one character; a bare atom is a run of
/// atom characters that no atom character precedes or follows; a string
/// literal starts and ends with a quote.
pub open spec fn token_at(text: Seq<char>, token: TokenView, i: int, j: int) -> bool {
    &&& 0 <= i < j <= text.len()
    &&& token.first() == byte_offset(text, i)
    &&& token.past() == byte_offset(text, j)
    &&& match token {
        TokenView::OpenParen(_) => j == i + 1 && text[i] == '(',
        TokenView::CloseParen(_) => j == i + 1 && text[i] == ')',
        TokenView::BareAtom { .. } => {
            &&& forall|m: int| i <= m < j ==> #[trigger] atom_char(text, m)
            &&& i == 0 || !atom_char(text, i - 1)
            &&& j == text.len() || !atom_char(text, j)
        },
        TokenView::StringLiteral { .. } => i + 2 <= j && text[i] == '"' && text[j - 1] == '"',
    }
}

/// Some run of characters of `text` spells `token`.
pub open spec fn in_text(text: Seq<char>, token: TokenView) -> bool {
    exists|i: int, j: int| token_at(text, token, i, j)
}

/// Every token is spelled by characters of the text.
pub open spec fn spelled(text: Seq<char>, tokens: Seq<TokenView>) -> bool {
    forall|n: int| 0 <= n < tokens.len() ==> in_text(text, #[trigger] tokens[n])
}

/// A bare atom is open since the character of index `i`: what came from
/// there up to the `k`-th character are atom characters, and none precedes
/// them.
pub open spec fn atom_open(text: Seq<char>, start: int, i: int, k: int) -> bool {
    &&& 0 <= i < k
    &&& byte_offset(text, i) == start
    &&& forall|m: int| i <= m < k ==> #[trigger] atom_char(text, m)
    &&& i == 0 || !atom_char(text, i - 1)
}

/// A string literal is open since the quote of index `i`.
pub open spec fn string_open(text: Seq<char>, start: int, i: int, k: int) -> bool {
    &&& 0 <= i < k
    &&& byte_offset(text, i) == start
    &&& text[i] == '"'
}

/// What the state of the scan after `k` characters says of the last
/// characters: outside of atoms and strings, the last was no atom character;
/// else the atom or string is open since one of them.
pub open spec fn state_spelled(text: Seq<char>, state: StateView, k: int) -> bool {
    match state {
        StateView::Boring => k == 0 || !atom_char(text, k - 1),
        StateView::InBareAtom { start } => exists|i: int| atom_open(text, start, i, k),
        StateView::InString { start, .. } => exists|i: int| string_open(text, start, i, k),
    }
}

/// What holds of the scan after `k` characters: the tokens emitted are
/// spelled by characters of the text, and the state says what the last
/// characters were.
pub open spec fn scan_spelling(text: Seq<char>, k: int) -> bool {
    &&& spelled(text, scan(text, k).tokens)
    &&& state_spelled(text, scan(text, k).state, k)
}

/// Tokens that are spelled stay so when one that is spelled follows them.
proof fn lemma_spelled_push(text: Seq<char>, tokens: Seq<TokenView>, token: TokenView)
    requires
        spelled(text, tokens),
        in_text(text, token),
    ensures
        spelled(text, tokens + seq![token]),
{
    let all = tokens + seq![token];
    assert forall|n: int| 0 <= n < all.len() implies in_text(text, #[trigger] all[n]) by {
        if n < tokens.len() {
            assert(all[n] == tokens[n]);
        }
    }
}

/// The step of `lemma_scan_spelling` from outside of atoms and strings.
proof fn lemma_step_from_boring(text: Seq<char>, k: int)
    requires
        0 < k <= text.len(),
        scan_spelling(text, k - 1),
        scan(text, k - 1).state is Boring,
    ensures
        scan_spelling(text, k),
{
    let prior = k - 1;
    let before = scan(text, prior);
    let now = scan(text, k);
    let at = byte_offset(text, prior);
    let c = text[prior];
    lemma_byte_offset_step(text, prior);
    assert(before.tokens + Seq::<TokenView>::empty() == before.tokens);
    if c == '(' || c == ')' {
        lemma_ascii_width(c);
        let paren = if c == '(' {
            TokenView::OpenParen(at)
        } else {
            TokenView::CloseParen(at)
        };
        assert(token_at(text, paren, prior, k));
        lemma_spelled_push(text, before.tokens, paren);
        assert(now.tokens == before.tokens + seq![paren]);
        assert(state_spelled(text, now.state, k));
    } else if c == '"' {
        assert(now.tokens == before.tokens);
        assert(now.state == (StateView::InString { start: at, escaped: false }));
        assert(string_open(text, now.state->InString_start, prior, k));
        assert(state_spelled(text, now.state, k));
    } else if atom_char(text, prior) {
        assert(now.tokens == before.tokens);
        assert(now.state == (StateView::InBareAtom { start: at }));
        assert(atom_open(text, now.state->InBareAtom_start, prior, k));
        assert(state_spelled(text, now.state, k));
    } else {
        assert(now.tokens == before.tokens);
        assert(now.state is Boring);
        assert(state_spelled(text, now.state, k));
    }
}

/// The step of `lemma_scan_spelling` from inside a bare atom.
proof fn lemma_step_from_atom(text: Seq<char>, k: int, start: int)
    requires
        0 < k <= text.len(),
        scan_spelling(text, k - 1),
        scan(text, k - 1).state == (StateView::InBareAtom { start }),
    ensures
        scan_spelling(text, k),
{
    let prior = k - 1;
    let before = scan(text, prior);
    let now = scan(text, k);
    let at = byte_offset(text, prior);
    let c = text[prior];
    lemma_byte_offset_step(text, prior);
    let i = choose|i: int| atom_open(text, start, i, prior);
    if atom_char(text, prior) {
        assert(before.tokens + Seq::<TokenView>::empty() == before.tokens);
        assert(now.tokens == before.tokens);
        assert(now.state == (StateView::InBareAtom { start }));
        assert(atom_open(text, now.state->InBareAtom_start, i, k));
        assert(state_spelled(text, now.state, k));
    } else {
        let atom = TokenView::BareAtom { start, end: at };
        let closed = before.tokens + seq![atom];
        assert(token_at(text, atom, i, prior));
        lemma_spelled_push(text, before.tokens, atom);
        assert(closed + Seq::<TokenView>::empty() == closed);
        if c == '(' || c == ')' {
            lemma_ascii_width(c);
            let paren = if c == '(' {
                TokenView::OpenParen(at)
            } else {
                TokenView::CloseParen(at)
            };
            assert(token_at(text, paren, prior, k));
            lemma_spelled_push(text, closed, paren);
            assert(now.tokens == closed + seq![paren]);
            assert(state_spelled(text, now.state, k));
        } else if c == '"' {
            assert(now.tokens == closed);
            assert(now.state == (StateView::InString { start: at, escaped: false }));
            assert(string_open(text, now.state->InString_start, prior, k));
            assert(state_spelled(text, now.state, k));
        } else {
            assert(now.tokens == closed);
            assert(now.state is Boring);
            assert(state_spelled(text, now.state, k));
        }
    }
}

/// The step of `lemma_scan_spelling` from inside a string literal.
proof fn lemma_step_from_string(text: Seq<char>, k: int, start: int, escaped: bool)
    requires
        0 < k <= text.len(),
        scan_spelling(text, k - 1),
        scan(text, k - 1).state == (StateView::InString { start, escaped }),
    ensures
        scan_spelling(text, k),
{
    let prior = k - 1;
    let before = scan(text, prior);
    let now = scan(text, k);
    let at = byte_offset(text, prior);
    let c = text[prior];
    lemma_byte_offset_step(text, prior);
    let i = choose|i: int| string_open(text, start, i, prior);
    if !escaped && c == '"' {
        lemma_ascii_width(c);
        lemma_ascii_width(text[i]);
        lemma_byte_offset_step(text, i);
        let literal = TokenView::StringLiteral { start: start + 1, end: at };
        assert(token_at(text, literal, i, k));
        lemma_spelled_push(text, before.tokens, literal);
        assert(now.tokens == before.tokens + seq![literal]);
        assert(now.state is Boring);
        assert(state_spelled(text, now.state, k));
    } else {
        assert(before.tokens + Seq::<TokenView>::empty() == before.tokens);
        assert(now.tokens == before.tokens);
        assert(now.state is InString && now.state->InString_start == start);
        assert(string_open(text, now.state->InString_start, i, k));
        assert(state_spelled(text, now.state, k));
    }
}

/// The step of `lemma_scan_spelling`: from `k - 1` characters to `k`.
proof fn lemma_spelling_step(text: Seq<char>, k: int)
    requires
        0 < k <= text.len(),
        scan_spelling(text, k - 1),
    ensures
        scan_spelling(text, k),
{
    match scan(text, k - 1).state {
        StateView::Boring => lemma_step_from_boring(text, k),
        StateView::InBareAtom { start } => lemma_step_from_atom(text, k, start),
        StateView::InString { start, escaped } => lemma_step_from_string(text, k, start, escaped),
    }
}

/// After every prefix of the text the tokens emitted are spelled by its
/// characters.
pub proof fn lemma_scan_spelling(text: Seq<char>, k: int)
    requires
        0 <= k <= text.len(),
    ensures
        scan_spelling(text, k),
    decreases k,
{
    if k > 0 {
        lemma_scan_spelling(text, k - 1);
        lemma_spelling_step(text, k);
    }
}

/// The tokens of a text are spelled by its characters: each takes up whole
/// characters, of the kind that the token says, and a bare atom is as long as
/// it can be.
pub proof fn lemma_tokens_spelled(text: Seq<char>)
    ensures
        tokens_of(text) matches Ok(tokens) ==> spelled(text, tokens),
{
    let len = text.len() as int;
    lemma_scan_spelling(text, len);
    lemma_byte_offset_ends(text);
    let last = scan(text, len);
    if let Ok(tokens) = tokens_of(text) {
        let n = last.tokens.len() as int;
        if let StateView::InBareAtom { start } = last.state {
            let i = choose|i: int| atom_open(text, start, i, len);
            assert(tokens[n] == (TokenView::BareAtom { start, end: byte_len(text) }));
            assert(token_at(text, tokens[n], i, len));
        }
        assert forall|m: int| 0 <= m < tokens.len() implies in_text(text, #[trigger] tokens[m]) by {
            if m < n {
                assert(tokens[m] == last.tokens[m]);
            }
        }
    }
}

/// The range of a bare atom holds the very characters that spell it, and the
/// range of a string literal those between its two quotes.
pub proof fn lemma_token_text(text: Seq<char>, token: TokenView, i: int, j: int)
    requires
        token_at(text, token, i, j),
    ensures
        match token {
            TokenView::BareAtom { start, end } => slice_of(text, start, end) == text.subrange(i, j),
            TokenView::StringLiteral { start, end } => slice_of(text, start, end) == text.subrange(
                i + 1,
                j - 1,
            ),
            _ => true,
        },
{
    match token {
        TokenView::BareAtom { .. } => {
            lemma_slice_of_offsets(text, i, j);
        },
        TokenView::StringLiteral { .. } => {
            lemma_ascii_width(text[i]);
            lemma_ascii_width(text[j - 1]);
            lemma_byte_offset_step(text, i);
            lemma_byte_offset_step(text, j - 1);
            lemma_slice_of_offsets(text, i + 1, j - 1);
        },
        _ => {},
    }
}

/// The character of index `m` is whitespace outside of strings.
pub open spec fn blank(text: Seq<char>, m: int) -> bool {
    interpretation_of(text[m]) is Whitespace
}

/// The token of index `n` takes up the character of index `m`.
pub open spec fn takes(text: Seq<char>, tokens: Seq<TokenView>, n: int, m: int) -> bool {
    0 <= n < tokens.len() && tokens[n].first() <= byte_offset(text, m) < tokens[n].past()
}

/// Some token takes up the character of index `m`.
pub open spec fn taken(text: Seq<char>, tokens: Seq<TokenView>, m: int) -> bool {
    exists|n: int| takes(text, tokens, n, m)
}

/// The character of index `m` lies in the atom or string that is open.
pub open spec fn held(text: Seq<char>, state: StateView, m: int) -> bool {
    match state {
        StateView::Boring => false,
        StateView::InBareAtom { start } => start <= byte_offset(text, m),
        StateView::InString { start, .. } => start <= byte_offset(text, m),
    }
}

/// After `k` characters, each of them is whitespace, or taken up by a token,
/// or held by what is open.
pub open spec fn scan_covering(text: Seq<char>, k: int) -> bool {
    forall|m: int|
        0 <= m < k ==> #[trigger] blank(text, m) || taken(text, scan(text, k).tokens, m) || held(
            text,
            scan(text, k).state,
            m,
        )
}

/// A token takes up a character still when tokens follow it.
proof fn lemma_taken_still(
    text: Seq<char>,
    before: Seq<TokenView>,
    now: Seq<TokenView>,
    m: int,
)
    requires
        taken(text, before, m),
        before.len() <= now.len(),
        forall|n: int| 0 <= n < before.len() ==> before[n] == now[n],
    ensures
        taken(text, now, m),
{
    let n = choose|n: int| takes(text, before, n, m);
    assert(takes(text, now, n, m));
}

/// Offsets grow with the index.
proof fn lemma_offsets_grow(text: Seq<char>, m: int, k: int)
    requires
        0 <= m < k <= text.len(),
    ensures
        byte_offset(text, m) < byte_offset(text, k),
{
    lemma_byte_offset_step(text, m);
    lemma_slice_of_offsets(text, m + 1, k);
}

/// The step of `lemma_scan_covering`: from `k - 1` characters to `k`.
proof fn lemma_covering_step(text: Seq<char>, k: int)
    requires
        0 < k <= text.len(),
        scan_covering(text, k - 1),
        scan(text, k - 1).state.opened_before(byte_offset(text, k - 1)),
    ensures
        scan_covering(text, k),
{
    let prior = k - 1;
    let before = scan(text, prior);
    let now = scan(text, k);
    let at = byte_offset(text, prior);
    let c = text[prior];
    let old = before.tokens.len() as int;
    lemma_byte_offset_step(text, prior);
    if c == '"' || c == '(' || c == ')' {
        lemma_ascii_width(c);
    }
    assert(old <= now.tokens.len());
    assert forall|n: int| 0 <= n < old implies before.tokens[n] == now.tokens[n] by {}
    assert forall|m: int| 0 <= m < k implies #[trigger] blank(text, m) || taken(
        text,
        now.tokens,
        m,
    ) || held(text, now.state, m) by {
        if m < prior {
            lemma_offsets_grow(text, m, prior);
            if blank(text, m) {
            } else if taken(text, before.tokens, m) {
                lemma_taken_still(text, before.tokens, now.tokens, m);
            } else {
                assert(held(text, before.state, m));
                if !held(text, now.state, m) {
                    assert(now.tokens.len() > old);
                    assert(takes(text, now.tokens, old, m));
                }
            }
        } else {
            if !blank(text, m) && !held(text, now.state, m) {
                assert(now.tokens.len() > old);
                let last = now.tokens.len() - 1;
                assert(takes(text, now.tokens, last, m));
            }
        }
    }
}

/// After every prefix of the text, each of its characters is whitespace, or
/// taken up by a token, or held by what is open.
pub proof fn lemma_scan_covering(text: Seq<char>, k: int)
    requires
        0 <= k <= text.len(),
    ensures
        scan_covering(text, k),
    decreases k,
{
    if k > 0 {
        lemma_scan_covering(text, k - 1);
        crate::tokenizer::lemma_scan_invariant(text, k - 1);
        lemma_covering_step(text, k);
    }
}

/// The tokens of a text take up all of it but whitespace.
pub proof fn lemma_tokens_cover(text: Seq<char>)
    ensures
        tokens_of(text) matches Ok(tokens) ==> forall|m: int|
            0 <= m < text.len() ==> #[trigger] blank(text, m) || taken(text, tokens, m),
{
    let len = text.len() as int;
    lemma_scan_covering(text, len);
    lemma_byte_offset_ends(text);
    let last = scan(text, len);
    if let Ok(tokens) = tokens_of(text) {
        let old = last.tokens.len() as int;
        assert forall|n: int| 0 <= n < old implies last.tokens[n] == tokens[n] by {}
        assert forall|m: int| 0 <= m < len implies #[trigger] blank(text, m) || taken(
            text,
            tokens,
            m,
        ) by {
            if blank(text, m) {
            } else if taken(text, last.tokens, m) {
                lemma_taken_still(text, last.tokens, tokens, m);
            } else {
                lemma_offsets_grow(text, m, len);
                assert(held(text, last.state, m));
                assert(takes(text, tokens, old, m));
            }
        }
    }
}

} // verus!
