//! The escape resolver: from the body of a string literal to the text that it
//! stands for.
//!
//! The body is first held to the escapes that this library supports, by a
//! scan of its own; the resolving itself is left to the `unescape` crate.

use vstd::prelude::*;

verus! {

/// Where the scan of a body stands between two characters.
#[derive(Debug, Clone, Copy, PartialEq, Eq)]
pub enum EscapeState {
    /// Outside any escape.
    Plain,
    /// Just after a backslash.
    Escaped,
    /// Inside `\u`, with this many hexadecimal digits still to come.
    Unicode(u8),
    /// After an escape that is not supported.
    Unsupported,
}

/// Whether `c` is a hexadecimal digit of the ASCII range.
pub open spec fn is_hex_digit(c: char) -> bool {
    ('0' <= c <= '9') || ('a' <= c <= 'f') || ('A' <= c <= 'F')
}

impl EscapeState {
    /// The state after the character `c`. After a backslash, `n`, `t`, a
    /// backslash and a quote close the escape, and `u` opens one of four
    /// hexadecimal digits; anything else is not supported, and stays so.
    pub open spec fn after(self, c: char) -> EscapeState {
        match self {
            EscapeState::Plain => if c == '\\' {
                EscapeState::Escaped
            } else {
                EscapeState::Plain
            },
            EscapeState::Escaped => if c == 'n' || c == 't' || c == '\\' || c == '"' {
                EscapeState::Plain
            } else if c == 'u' {
                EscapeState::Unicode(4)
            } else {
                EscapeState::Unsupported
            },
            EscapeState::Unicode(left) => if !is_hex_digit(c) {
                EscapeState::Unsupported
            } else if left <= 1 {
                EscapeState::Plain
            } else {
                EscapeState::Unicode((left - 1) as u8)
            },
            EscapeState::Unsupported => EscapeState::Unsupported,
        }
    }

    /// Moves the scan over the character `c`.
    pub fn advance(self, c: char) -> (next: EscapeState)
        ensures
            next == self.after(c),
    {
        match self {
            EscapeState::Plain => if c == '\\' {
                EscapeState::Escaped
            } else {
                EscapeState::Plain
            },
            EscapeState::Escaped => if c == 'n' || c == 't' || c == '\\' || c == '"' {
                EscapeState::Plain
            } else if c == 'u' {
                EscapeState::Unicode(4)
            } else {
                EscapeState::Unsupported
            },
            EscapeState::Unicode(left) => {
                let hex = ('0' <= c && c <= '9') || ('a' <= c && c <= 'f') || ('A' <= c && c
                    <= 'F');
                if !hex {
                    EscapeState::Unsupported
                } else if left <= 1 {
                    EscapeState::Plain
                } else {
                    EscapeState::Unicode(left - 1)
                }
            },
            EscapeState::Unsupported => EscapeState::Unsupported,
        }
    }
}

/// The state of the scan after the first `k` characters of `body`.
pub open spec fn escape_state(body: Seq<char>, k: int) -> EscapeState
    decreases k,
{
    if k <= 0 {
        EscapeState::Plain
    } else {
        escape_state(body, k - 1).after(body[k - 1])
    }
}

/// Every backslash in `body` starts one of the supported escapes, whole: `\n`,
/// `\t`, `\\`, `\"`, or `\u` with exactly four hexadecimal digits.
pub open spec fn escapes_supported(body: Seq<char>) -> bool {
    escape_state(body, body.len() as int) is Plain
}

/// Whether every backslash in `body` starts a supported escape.
pub fn has_supported_escapes(body: &str) -> (supported: bool)
    ensures
        supported == escapes_supported(body@),
{
    let mut state = EscapeState::Plain;
    for c in it: body.chars()
        invariant
            it.seq() == body@,
            state == escape_state(body@, it.index() as int),
    {
        state = state.advance(c);
    }
    match state {
        EscapeState::Plain => true,
        _ => false,
    }
}

/// The body holds no backslash, and so no escape.
pub open spec fn is_plain(body: Seq<char>) -> bool {
    !body.contains('\\')
}

/// A body without a backslash holds supported escapes only: none.
pub proof fn lemma_plain_supported(body: Seq<char>, k: int)
    requires
        0 <= k <= body.len(),
        is_plain(body),
    ensures
        escape_state(body, k) is Plain,
    decreases k,
{
    if k > 0 {
        lemma_plain_supported(body, k - 1);
        assert(body.contains(body[k - 1]));
    }
}

/// What a resolved body is, as characters.
pub open spec fn resolved_text(resolved: Option<String>) -> Option<Seq<char>> {
    match resolved {
        Some(text) => Some(text@),
        None => None,
    }
}

/// The text that a body stands for once its backslash escapes are resolved,
/// or `None` where that fails: what `unescape::unescape` returns for it.
pub uninterp spec fn unescaped(body: Seq<char>) -> Option<Seq<char>>;

/// `unescape::unescape`: the result is a function of the characters of
/// `body` alone, named `unescaped` here. The crate copies every character up
/// to the first backslash, so a body without one comes back unchanged; it
/// returns `None` where an escape fails, and does not panic.
#[verifier::external_body]
fn unescape_body(body: &str) -> (resolved: Option<String>)
    ensures
        match resolved {
            Some(text) => unescaped(body@) == Some(text@),
            None => unescaped(body@) is None,
        },
        is_plain(body@) ==> resolved_text(resolved) == Some(body@),
{
    unescape::unescape(body)
}

/// The text that `body` stands for: none where it holds an escape that is not
/// supported, else what its escapes resolve to.
pub open spec fn resolution_of(body: Seq<char>) -> Option<Seq<char>> {
    if escapes_supported(body) {
        unescaped(body)
    } else {
        None
    }
}

/// Resolves the escapes of the body of a string literal. A body that holds
/// an escape other than the supported ones resolves to nothing.
pub fn resolve_string_literal(string: &str) -> (resolved: Option<String>)
    ensures
        resolved_text(resolved) == resolution_of(string@),
        is_plain(string@) ==> resolved_text(resolved) == Some(string@),
{
    proof {
        if is_plain(string@) {
            lemma_plain_supported(string@, string@.len() as int);
        }
    }
    if has_supported_escapes(string) {
        unescape_body(string)
    } else {
        None
    }
}

} // verus!
