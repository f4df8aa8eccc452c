//! The tokenizer: one forward scan over the characters of a text, driven by a
//! three-state automaton.

use crate::text::{
    byte_len, byte_length, byte_offset, has_white_space, is_span, lemma_ascii_width,
    lemma_byte_offset_ends, lemma_byte_offset_step, lemma_offset_is_boundary,
    lemma_slice_of_offsets,
};
use std::ops::Range;
use vstd::prelude::*;

verus! {

/// The one way in which a text fails to tokenize: the quote at this byte
/// offset opens a string literal that never closes.
#[derive(Debug, PartialEq, Eq)]
pub enum TokenizationError {
    UnclosedString(usize),
}

impl View for TokenizationError {
    type V = int;

    /// The byte offset of the opening quote.
    open spec fn view(&self) -> int {
        match self {
            TokenizationError::UnclosedString(start) => *start as int,
        }
    }
}

/// A token, located in the text by byte offset. The range of a string literal
/// leaves out its two quotes.
#[derive(Debug, PartialEq, Eq)]
pub enum Token {
    OpenParen(usize),
    CloseParen(usize),
    BareAtom(Range<usize>),
    StringLiteral(Range<usize>),
}

/// What a token is, with its offsets as mathematical integers.
pub enum TokenView {
    OpenParen(int),
    CloseParen(int),
    BareAtom { start: int, end: int },
    StringLiteral { start: int, end: int },
}

impl View for Token {
    type V = TokenView;

    open spec fn view(&self) -> TokenView {
        match self {
            Token::OpenParen(at) => TokenView::OpenParen(*at as int),
            Token::CloseParen(at) => TokenView::CloseParen(*at as int),
            Token::BareAtom(range) => TokenView::BareAtom {
                start: range.start as int,
                end: range.end as int,
            },
            Token::StringLiteral(range) => TokenView::StringLiteral {
                start: range.start as int,
                end: range.end as int,
            },
        }
    }
}

/// The views of a sequence of tokens, in order.
pub open spec fn token_views(tokens: Seq<Token>) -> Seq<TokenView> {
    tokens.map_values(|token: Token| token@)
}

/// How a character outside a string literal is read.
#[derive(Debug, Clone, Copy, PartialEq, Eq)]
pub enum CharacterInterpretation {
    Whitespace,
    BeginString,
    OpenParen,
    CloseParen,
    AtomCharacter,
}

impl CharacterInterpretation {
    /// The reading of `c`, given whether it is whitespace. The quote and the
    /// two parentheses are told apart first.
    pub open spec fn of(c: char, whitespace: bool) -> CharacterInterpretation {
        if c == '"' {
            CharacterInterpretation::BeginString
        } else if c == '(' {
            CharacterInterpretation::OpenParen
        } else if c == ')' {
            CharacterInterpretation::CloseParen
        } else if whitespace {
            CharacterInterpretation::Whitespace
        } else {
            CharacterInterpretation::AtomCharacter
        }
    }

    /// Reads `c`, given whether it is whitespace.
    pub fn classify(c: char, whitespace: bool) -> (kind: CharacterInterpretation)
        ensures
            kind == CharacterInterpretation::of(c, whitespace),
    {
        if c == '"' {
            CharacterInterpretation::BeginString
        } else if c == '(' {
            CharacterInterpretation::OpenParen
        } else if c == ')' {
            CharacterInterpretation::CloseParen
        } else if whitespace {
            CharacterInterpretation::Whitespace
        } else {
            CharacterInterpretation::AtomCharacter
        }
    }

    /// Every character but an atom character ends the bare atom before it.
    pub fn should_end_atom(&self) -> (ends: bool)
        ensures
            ends == !(self is AtomCharacter),
    {
        match self {
            CharacterInterpretation::AtomCharacter => false,
            _ => true,
        }
    }
}

/// The reading of `c` by Unicode's notion of whitespace.
pub open spec fn interpretation_of(c: char) -> CharacterInterpretation {
    CharacterInterpretation::of(c, has_white_space(c))
}

/// Reads `c`, asking the standard library whether it is whitespace.
pub fn interpret(c: char) -> (kind: CharacterInterpretation)
    ensures
        kind == interpretation_of(c),
{
    CharacterInterpretation::classify(c, c.is_whitespace())
}

/// The state of the automaton between two characters. The offsets are those of
/// the quote that opened the string, and of the first character of the atom.
#[derive(Debug, Clone, Copy, PartialEq, Eq)]
pub enum TokenizationState {
    Boring,
    InString(usize, bool),
    InBareAtom(usize),
}

/// The automaton's state, with its offsets as mathematical integers.
pub enum StateView {
    Boring,
    InString { start: int, escaped: bool },
    InBareAtom { start: int },
}

impl StateView {
    /// What the state has open was opened before the offset `at`.
    pub open spec fn opened_before(self, at: int) -> bool {
        match self {
            StateView::Boring => true,
            StateView::InString { start, .. } => 0 <= start < at,
            StateView::InBareAtom { start } => 0 <= start < at,
        }
    }
}

impl View for TokenizationState {
    type V = StateView;

    open spec fn view(&self) -> StateView {
        match self {
            TokenizationState::Boring => StateView::Boring,
            TokenizationState::InString(start, escaped) => StateView::InString {
                start: *start as int,
                escaped: *escaped,
            },
            TokenizationState::InBareAtom(start) => StateView::InBareAtom { start: *start as int },
        }
    }
}

/// One move of the automaton: the state it enters, the token it emits if any,
/// and whether it has used up the character. A character that ends a bare atom
/// is not used up: it is read again from `Boring`.
#[derive(Debug, PartialEq, Eq)]
pub struct Transition {
    pub state: TokenizationState,
    pub emitted: Option<Token>,
    pub consumed: bool,
}

pub struct TransitionView {
    pub state: StateView,
    pub emitted: Option<TokenView>,
    pub consumed: bool,
}

impl View for Transition {
    type V = TransitionView;

    open spec fn view(&self) -> TransitionView {
        TransitionView {
            state: self.state@,
            emitted: match self.emitted {
                Some(token) => Some(token@),
                None => None,
            },
            consumed: self.consumed,
        }
    }
}

/// The transition table. In a string literal only the character itself
/// counts; elsewhere only its reading `kind`.
pub open spec fn step_of(
    state: StateView,
    at: int,
    c: char,
    kind: CharacterInterpretation,
) -> TransitionView {
    match state {
        StateView::InString { start, escaped: true } => TransitionView {
            state: StateView::InString { start, escaped: false },
            emitted: None,
            consumed: true,
        },
        StateView::InString { start, escaped: false } => if c == '\\' {
            TransitionView {
                state: StateView::InString { start, escaped: true },
                emitted: None,
                consumed: true,
            }
        } else if c == '"' {
            TransitionView {
                state: StateView::Boring,
                emitted: Some(TokenView::StringLiteral { start: start + 1, end: at }),
                consumed: true,
            }
        } else {
            TransitionView { state, emitted: None, consumed: true }
        },
        StateView::InBareAtom { start } => if kind is AtomCharacter {
            TransitionView { state, emitted: None, consumed: true }
        } else {
            TransitionView {
                state: StateView::Boring,
                emitted: Some(TokenView::BareAtom { start, end: at }),
                consumed: false,
            }
        },
        StateView::Boring => match kind {
            CharacterInterpretation::Whitespace => TransitionView {
                state: StateView::Boring,
                emitted: None,
                consumed: true,
            },
            CharacterInterpretation::BeginString => TransitionView {
                state: StateView::InString { start: at, escaped: false },
                emitted: None,
                consumed: true,
            },
            CharacterInterpretation::OpenParen => TransitionView {
                state: StateView::Boring,
                emitted: Some(TokenView::OpenParen(at)),
                consumed: true,
            },
            CharacterInterpretation::CloseParen => TransitionView {
                state: StateView::Boring,
                emitted: Some(TokenView::CloseParen(at)),
                consumed: true,
            },
            CharacterInterpretation::AtomCharacter => TransitionView {
                state: StateView::InBareAtom { start: at },
                emitted: None,
                consumed: true,
            },
        },
    }
}

/// Makes one move of the automaton on the character `c`, read as `kind`, at
/// the byte offset `at`.
pub fn step(state: TokenizationState, at: usize, c: char, kind: CharacterInterpretation) -> (next:
    Transition)
    requires
        state@.opened_before(at as int),
    ensures
        next@ == step_of(state@, at as int, c, kind),
{
    match state {
        TokenizationState::InString(start, true) => Transition {
            state: TokenizationState::InString(start, false),
            emitted: None,
            consumed: true,
        },
        TokenizationState::InString(start, false) => if c == '\\' {
            Transition {
                state: TokenizationState::InString(start, true),
                emitted: None,
                consumed: true,
            }
        } else if c == '"' {
            Transition {
                state: TokenizationState::Boring,
                emitted: Some(Token::StringLiteral(start + 1..at)),
                consumed: true,
            }
        } else {
            Transition { state, emitted: None, consumed: true }
        },
        TokenizationState::InBareAtom(start) => if kind.should_end_atom() {
            Transition {
                state: TokenizationState::Boring,
                emitted: Some(Token::BareAtom(start..at)),
                consumed: false,
            }
        } else {
            Transition { state, emitted: None, consumed: true }
        },
        TokenizationState::Boring => match kind {
            CharacterInterpretation::Whitespace => Transition {
                state: TokenizationState::Boring,
                emitted: None,
                consumed: true,
            },
            CharacterInterpretation::BeginString => Transition {
                state: TokenizationState::InString(at, false),
                emitted: None,
                consumed: true,
            },
            CharacterInterpretation::OpenParen => Transition {
                state: TokenizationState::Boring,
                emitted: Some(Token::OpenParen(at)),
                consumed: true,
            },
            CharacterInterpretation::CloseParen => Transition {
                state: TokenizationState::Boring,
                emitted: Some(Token::CloseParen(at)),
                consumed: true,
            },
            CharacterInterpretation::AtomCharacter => Transition {
                state: TokenizationState::InBareAtom(at),
                emitted: None,
                consumed: true,
            },
        },
    }
}

/// What the automaton holds between two characters: its state, and the
/// tokens emitted so far.
pub struct ScanView {
    pub state: StateView,
    pub tokens: Seq<TokenView>,
}

/// The tokens that one move adds: one or none.
pub open spec fn emitted_tokens(emitted: Option<TokenView>) -> Seq<TokenView> {
    match emitted {
        Some(token) => seq![token],
        None => Seq::empty(),
    }
}

/// Feeds one character to the automaton: one move, and, where that move ended
/// a bare atom without using the character up, a second move on the same
/// character.
pub open spec fn feed(before: ScanView, at: int, c: char, kind: CharacterInterpretation) -> ScanView {
    let first = step_of(before.state, at, c, kind);
    let tokens = before.tokens + emitted_tokens(first.emitted);
    if first.consumed {
        ScanView { state: first.state, tokens }
    } else {
        let second = step_of(first.state, at, c, kind);
        ScanView { state: second.state, tokens: tokens + emitted_tokens(second.emitted) }
    }
}

/// The automaton after the first `k` characters of `text`.
pub open spec fn scan(text: Seq<char>, k: int) -> ScanView
    decreases k,
{
    if k <= 0 {
        ScanView { state: StateView::Boring, tokens: Seq::empty() }
    } else {
        feed(
            scan(text, k - 1),
            byte_offset(text, k - 1),
            text[k - 1],
            interpretation_of(text[k - 1]),
        )
    }
}

/// The tokens of `text`, or the offset of the quote that never closes. At the
/// end of the text an open bare atom is closed there, and an open string
/// literal is the error.
pub open spec fn tokens_of(text: Seq<char>) -> Result<Seq<TokenView>, int> {
    let last = scan(text, text.len() as int);
    match last.state {
        StateView::Boring => Ok(last.tokens),
        StateView::InBareAtom { start } => Ok(
            last.tokens.push(TokenView::BareAtom { start, end: byte_len(text) }),
        ),
        StateView::InString { start, .. } => Err(start),
    }
}

/// What a call of `tokenize` returned, as tokens or as the offset of the
/// error.
pub open spec fn tokenized(result: Result<Vec<Token>, TokenizationError>) -> Result<
    Seq<TokenView>,
    int,
> {
    match result {
        Ok(tokens) => Ok(token_views(tokens@)),
        Err(error) => Err(error@),
    }
}

impl TokenView {
    /// The offset of the first byte that the token takes up in the text, the
    /// opening quote of a string literal included.
    pub open spec fn first(self) -> int {
        match self {
            TokenView::OpenParen(at) => at,
            TokenView::CloseParen(at) => at,
            TokenView::BareAtom { start, .. } => start,
            TokenView::StringLiteral { start, .. } => start - 1,
        }
    }

    /// The offset just past the last byte that the token takes up, the closing
    /// quote of a string literal included.
    pub open spec fn past(self) -> int {
        match self {
            TokenView::OpenParen(at) => at + 1,
            TokenView::CloseParen(at) => at + 1,
            TokenView::BareAtom { end, .. } => end,
            TokenView::StringLiteral { end, .. } => end + 1,
        }
    }

    /// The token takes up whole characters of `text`: its offsets, and those
    /// of a literal's quotes, are character boundaries, and a bare atom is
    /// not empty.
    pub open spec fn lies_in(self, text: Seq<char>) -> bool {
        match self {
            TokenView::OpenParen(at) => is_span(text, at, at + 1),
            TokenView::CloseParen(at) => is_span(text, at, at + 1),
            TokenView::BareAtom { start, end } => start < end && is_span(text, start, end),
            TokenView::StringLiteral { start, end } => {
                &&& is_span(text, start - 1, start)
                &&& is_span(text, start, end)
                &&& is_span(text, end, end + 1)
            },
        }
    }
}

/// Every token takes up whole characters of `text`, and the tokens follow one
/// another in the text without overlap.
pub open spec fn well_formed(text: Seq<char>, tokens: Seq<TokenView>) -> bool {
    &&& forall|i: int| 0 <= i < tokens.len() ==> (#[trigger] tokens[i]).lies_in(text)
    &&& forall|i: int, j: int|
        0 <= i < j < tokens.len() ==> (#[trigger] tokens[i]).past() <= (#[trigger] tokens[j]).first()
}

/// The offset up to which the text is settled: where the open atom or string
/// began, or else the offset reached.
pub open spec fn frontier(state: StateView, at: int) -> int {
    match state {
        StateView::Boring => at,
        StateView::InString { start, .. } => start,
        StateView::InBareAtom { start } => start,
    }
}

/// What holds of the automaton after `k` characters: the tokens are well
/// formed and end at or before the frontier, and what is open began at a
/// character before the `k`-th, a quote in the case of a string.
pub open spec fn scan_invariant(text: Seq<char>, k: int) -> bool {
    let now = scan(text, k);
    let at = byte_offset(text, k);
    &&& well_formed(text, now.tokens)
    &&& forall|i: int|
        0 <= i < now.tokens.len() ==> (#[trigger] now.tokens[i]).past() <= frontier(now.state, at)
    &&& match now.state {
        StateView::Boring => true,
        StateView::InBareAtom { start } => exists|j: int|
            0 <= j < k && #[trigger] byte_offset(text, j) == start,
        StateView::InString { start, .. } => exists|j: int|
            0 <= j < k && #[trigger] byte_offset(text, j) == start && text[j] == '"',
    }
}

/// The invariant of the scan holds after every prefix of the text.
pub proof fn lemma_scan_invariant(text: Seq<char>, k: int)
    requires
        0 <= k <= text.len(),
    ensures
        scan_invariant(text, k),
        scan(text, k).state.opened_before(byte_offset(text, k)),
    decreases k,
{
    if k == 0 {
        lemma_byte_offset_ends(text);
    } else {
        lemma_scan_invariant(text, k - 1);
        let before = scan(text, k - 1);
        let now = scan(text, k);
        let at = byte_offset(text, k - 1);
        let next = byte_offset(text, k);
        let c = text[k - 1];
        let kind = interpretation_of(c);
        lemma_byte_offset_step(text, k - 1);
        lemma_offset_is_boundary(text, k - 1);
        lemma_offset_is_boundary(text, k);
        if c == '"' || c == '(' || c == ')' {
            lemma_ascii_width(c);
        }
        match before.state {
            StateView::Boring => {
                assert(byte_offset(text, k - 1) == at);
            },
            StateView::InBareAtom { start } => {
                let j = choose|j: int| 0 <= j < k - 1 && #[trigger] byte_offset(text, j) == start;
                lemma_slice_of_offsets(text, j, k - 1);
                lemma_byte_offset_step(text, j);
                lemma_offset_is_boundary(text, j);
                assert(byte_offset(text, j) == start);
                assert(byte_offset(text, k - 1) == at);
            },
            StateView::InString { start, escaped } => {
                let j = choose|j: int|
                    0 <= j < k - 1 && #[trigger] byte_offset(text, j) == start && text[j] == '"';
                lemma_slice_of_offsets(text, j + 1, k - 1);
                lemma_byte_offset_step(text, j);
                lemma_offset_is_boundary(text, j);
                lemma_offset_is_boundary(text, j + 1);
                lemma_ascii_width(text[j]);
                assert(byte_offset(text, j) == start);
            },
        }
        assert(scan_invariant(text, k));
    }
}

/// The tokens of a text are well formed.
pub proof fn lemma_tokens_well_formed(text: Seq<char>)
    ensures
        tokens_of(text) matches Ok(tokens) ==> well_formed(text, tokens),
        tokens_of(text) matches Err(start) ==> is_span(text, start, start + 1),
{
    let n = text.len() as int;
    lemma_scan_invariant(text, n);
    lemma_byte_offset_ends(text);
    lemma_offset_is_boundary(text, n);
    match scan(text, n).state {
        StateView::Boring => {},
        StateView::InBareAtom { start } => {
            let j = choose|j: int| 0 <= j < n && #[trigger] byte_offset(text, j) == start;
            lemma_byte_offset_step(text, j);
            lemma_offset_is_boundary(text, j);
            lemma_slice_of_offsets(text, j + 1, n);
        },
        StateView::InString { start, .. } => {
            let j = choose|j: int|
                0 <= j < n && #[trigger] byte_offset(text, j) == start && text[j] == '"';
            lemma_byte_offset_step(text, j);
            lemma_offset_is_boundary(text, j);
            lemma_offset_is_boundary(text, j + 1);
            lemma_ascii_width(text[j]);
        },
    }
}

/// A text that is not empty and holds no quote, no parenthesis and no
/// whitespace is one bare atom, from its first byte to its last.
pub proof fn lemma_plain_text_is_one_atom(text: Seq<char>)
    requires
        text.len() > 0,
        forall|i: int|
            0 <= i < text.len() ==> text[i] != '"' && text[i] != '(' && text[i] != ')'
                && !has_white_space(#[trigger] text[i]),
    ensures
        tokens_of(text) == Ok::<Seq<TokenView>, int>(
            seq![TokenView::BareAtom { start: 0, end: byte_len(text) }],
        ),
{
    lemma_plain_prefix(text, text.len() as int);
    assert(Seq::<TokenView>::empty().push(TokenView::BareAtom { start: 0, end: byte_len(text) })
        == seq![TokenView::BareAtom { start: 0, end: byte_len(text) }]);
}

proof fn lemma_plain_prefix(text: Seq<char>, k: int)
    requires
        0 < k <= text.len(),
        forall|i: int|
            0 <= i < text.len() ==> text[i] != '"' && text[i] != '(' && text[i] != ')'
                && !has_white_space(#[trigger] text[i]),
    ensures
        scan(text, k) == (ScanView {
            state: StateView::InBareAtom { start: 0 },
            tokens: Seq::empty(),
        }),
    decreases k,
{
    lemma_byte_offset_ends(text);
    if k == 1 {
        assert(scan(text, 0).tokens + Seq::<TokenView>::empty() == Seq::<TokenView>::empty());
    } else {
        lemma_plain_prefix(text, k - 1);
        assert(scan(text, k - 1).tokens + Seq::<TokenView>::empty() == Seq::<TokenView>::empty());
    }
    assert(interpretation_of(text[k - 1]) is AtomCharacter);
}

proof fn lemma_token_views_push(tokens: Seq<Token>, token: Token)
    ensures
        token_views(tokens.push(token)) == token_views(tokens) + seq![token@],
{
    assert(token_views(tokens.push(token)) =~= token_views(tokens) + seq![token@]);
}

/// Splits `input` into its tokens, or reports the quote that opens a string
/// literal which never closes.
pub fn tokenize(input: &str) -> (result: Result<Vec<Token>, TokenizationError>)
    ensures
        tokenized(result) == tokens_of(input@),
        result matches Ok(tokens) ==> well_formed(input@, token_views(tokens@)),
{
    let mut state = TokenizationState::Boring;
    let mut tokens: Vec<Token> = Vec::new();
    let mut at: usize = 0;
    let total = byte_length(input);
    proof {
        lemma_byte_offset_ends(input@);
        assert(token_views(tokens@) =~= Seq::<TokenView>::empty());
    }
    for c in it: input.chars()
        invariant
            it.seq() == input@,
            total as int == byte_len(input@),
            at as int == byte_offset(input@, it.index() as int),
            state@ == scan(input@, it.index() as int).state,
            token_views(tokens@) == scan(input@, it.index() as int).tokens,
            state@.opened_before(at as int),
    {
        proof {
            lemma_byte_offset_step(input@, it.index() as int);
        }
        let kind = interpret(c);
        let Transition { state: entered, emitted, consumed } = step(state, at, c, kind);
        state = entered;
        if let Some(token) = emitted {
            proof {
                lemma_token_views_push(tokens@, token);
            }
            tokens.push(token);
        }
        if !consumed {
            let Transition { state: entered, emitted, consumed: _ } = step(state, at, c, kind);
            state = entered;
            if let Some(token) = emitted {
                proof {
                    lemma_token_views_push(tokens@, token);
                }
                tokens.push(token);
            }
        }
        at = at + c.len_utf8();
        assert(token_views(tokens@) =~= scan(input@, it.index() + 1).tokens);
    }
    proof {
        lemma_tokens_well_formed(input@);
    }
    match state {
        TokenizationState::Boring => Ok(tokens),
        TokenizationState::InString(start, _) => Err(TokenizationError::UnclosedString(start)),
        TokenizationState::InBareAtom(start) => {
            proof {
                lemma_token_views_push(tokens@, Token::BareAtom(start..total));
            }
            tokens.push(Token::BareAtom(start..total));
            Ok(tokens)
        },
    }
}

} // verus!
