use rundown::tokenizer::{tokenize, Token, TokenizationError};

fn shown_tokens(result: &Result<Vec<Token>, TokenizationError>) -> String {
    format!("\n{:#?}\n", result)
}

#[test]
fn tokenizer_tokenize_atom() {
    let result = tokenize("hello");
    assert_eq!(
        shown_tokens(&result),
        "
Ok(
    [
        BareAtom(
            0..5,
        ),
    ],
)
"
    );
    assert_eq!(result, Ok(vec![Token::BareAtom(0..5)]));
}

#[test]
fn tokenizer_tokenize_string() {
    let result = tokenize(r#""hello""#);
    assert_eq!(
        shown_tokens(&result),
        "
Ok(
    [
        StringLiteral(
            1..6,
        ),
    ],
)
"
    );
    assert_eq!(result, Ok(vec![Token::StringLiteral(1..6)]));
}

#[test]
fn tokenizer_tokenize_parens() {
    let result = tokenize(")()(");
    assert_eq!(
        shown_tokens(&result),
        "
Ok(
    [
        CloseParen(
            0,
        ),
        OpenParen(
            1,
        ),
        CloseParen(
            2,
        ),
        OpenParen(
            3,
        ),
    ],
)
"
    );
    assert_eq!(
        result,
        Ok(vec![
            Token::CloseParen(0),
            Token::OpenParen(1),
            Token::CloseParen(2),
            Token::OpenParen(3),
        ])
    );
}

#[test]
fn tokenizer_string_escapes_work() {
    let result = tokenize(r#" "hello \"world\" \\" "#);
    assert_eq!(
        shown_tokens(&result),
        "
Ok(
    [
        StringLiteral(
            2..20,
        ),
    ],
)
"
    );
    assert_eq!(result, Ok(vec![Token::StringLiteral(2..20)]));
}

#[test]
fn arbitrary_string_escapes_tokenize() {
    let result = tokenize(r#" "\a" "#);
    assert_eq!(
        shown_tokens(&result),
        "
Ok(
    [
        StringLiteral(
            2..4,
        ),
    ],
)
"
    );
    assert_eq!(result, Ok(vec![Token::StringLiteral(2..4)]));
}

#[test]
fn tokenizer_unterminated_strings() {
    assert_eq!(
        shown_tokens(&tokenize(r#" "hello "#)),
        "
Err(
    UnclosedString(
        1,
    ),
)
"
    );
    assert_eq!(
        shown_tokens(&tokenize(r#" "hello\"#)),
        "
Err(
    UnclosedString(
        1,
    ),
)
"
    );
    assert_eq!(tokenize(r#" "hello "#), Err(TokenizationError::UnclosedString(1)));
    assert_eq!(tokenize(r#" "hello\"#), Err(TokenizationError::UnclosedString(1)));
}

#[test]
fn tokenizer_tokenize_mix() {
    let result = tokenize(r#"(hello "world")"something" ) "#);
    assert_eq!(
        shown_tokens(&result),
        "
Ok(
    [
        OpenParen(
            0,
        ),
        BareAtom(
            1..6,
        ),
        StringLiteral(
            8..13,
        ),
        CloseParen(
            14,
        ),
        StringLiteral(
            16..25,
        ),
        CloseParen(
            27,
        ),
    ],
)
"
    );
    assert_eq!(
        shown_tokens(&tokenize(r#" "hello\"#)),
        "
Err(
    UnclosedString(
        1,
    ),
)
"
    );
}

#[test]
fn tokenizer_quotes_can_snuggle_atoms() {
    let result = tokenize(r#"atom"string"atom"#);
    assert_eq!(
        shown_tokens(&result),
        "
Ok(
    [
        BareAtom(
            0..4,
        ),
        StringLiteral(
            5..11,
        ),
        BareAtom(
            12..16,
        ),
    ],
)
"
    );
}

#[test]
fn tokenizer_normal_whitespace_separates_atoms() {
    let result = tokenize("a b\nc\td");
    assert_eq!(
        shown_tokens(&result),
        "
Ok(
    [
        BareAtom(
            0..1,
        ),
        BareAtom(
            2..3,
        ),
        BareAtom(
            4..5,
        ),
        BareAtom(
            6..7,
        ),
    ],
)
"
    );
}

#[test]
fn tokenizer_unicode_whitespace_separates_atoms() {
    // U+2009 is "THIN SPACE"
    // U+2029 is "PARAGRAPH SEPARATOR"
    let result = tokenize("a\u{2009}b\u{2029}c");
    assert_eq!(
        shown_tokens(&result),
        "
Ok(
    [
        BareAtom(
            0..1,
        ),
        BareAtom(
            4..5,
        ),
        BareAtom(
            8..9,
        ),
    ],
)
"
    );
}
