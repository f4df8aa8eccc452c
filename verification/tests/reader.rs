use rundown::sexp::{parse_many, Error, Sexp};
use rundown::tokenizer::{tokenize, Token, TokenizationError};

fn shown_forms(result: &Result<Vec<Sexp>, Error>) -> String {
    format!("\n{:#?}\n", result)
}

fn atom(text: &str) -> Sexp {
    Sexp::Atom(text.to_string())
}

fn shown_scan(result: &Result<Vec<Token>, TokenizationError>) -> String {
    format!("\n{:#?}\n", result)
}

#[test]
fn lib_tokenize_atom() {
    let result = tokenize("hello");
    assert_eq!(
        shown_scan(&result),
        "
Ok(
    [
        BareAtom(
            0..5,
        ),
    ],
)
"
    );
    assert_eq!(result, Ok(vec![Token::BareAtom(0..5)]));
}

#[test]
fn lib_tokenize_string() {
    let result = tokenize(r#""hello""#);
    assert_eq!(
        shown_scan(&result),
        "
Ok(
    [
        StringLiteral(
            1..6,
        ),
    ],
)
"
    );
    assert_eq!(result, Ok(vec![Token::StringLiteral(1..6)]));
}

#[test]
fn lib_tokenize_parens() {
    let result = tokenize(")()(");
    assert_eq!(
        shown_scan(&result),
        "
Ok(
    [
        CloseParen(
            0,
        ),
        OpenParen(
            1,
        ),
        CloseParen(
            2,
        ),
        OpenParen(
            3,
        ),
    ],
)
"
    );
    assert_eq!(
        result,
        Ok(vec![
            Token::CloseParen(0),
            Token::OpenParen(1),
            Token::CloseParen(2),
            Token::OpenParen(3),
        ])
    );
}

#[test]
fn lib_string_escapes_work() {
    let result = tokenize(r#" "hello \"world\" \\" "#);
    assert_eq!(
        shown_scan(&result),
        "
Ok(
    [
        StringLiteral(
            2..20,
        ),
    ],
)
"
    );
    assert_eq!(result, Ok(vec![Token::StringLiteral(2..20)]));
}

#[test]
fn lib_unterminated_strings() {
    assert_eq!(
        shown_scan(&tokenize(r#" "hello "#)),
        "
Err(
    UnclosedString(
        1,
    ),
)
"
    );
    assert_eq!(
        shown_scan(&tokenize(r#" "hello\"#)),
        "
Err(
    UnclosedString(
        1,
    ),
)
"
    );
    assert_eq!(tokenize(r#" "hello "#), Err(TokenizationError::UnclosedString(1)));
    assert_eq!(tokenize(r#" "hello\"#), Err(TokenizationError::UnclosedString(1)));
}

#[test]
fn lib_tokenize_mix() {
    let result = tokenize(r#"(hello "world")"something" ) "#);
    assert_eq!(
        shown_scan(&result),
        "
Ok(
    [
        OpenParen(
            0,
        ),
        BareAtom(
            1..6,
        ),
        StringLiteral(
            8..13,
        ),
        CloseParen(
            14,
        ),
        StringLiteral(
            16..25,
        ),
        CloseParen(
            27,
        ),
    ],
)
"
    );
    assert_eq!(
        shown_scan(&tokenize(r#" "hello\"#)),
        "
Err(
    UnclosedString(
        1,
    ),
)
"
    );
}

#[test]
fn lib_quotes_can_snuggle_atoms() {
    let result = tokenize(r#"atom"string"atom"#);
    assert_eq!(
        shown_scan(&result),
        "
Ok(
    [
        BareAtom(
            0..4,
        ),
        StringLiteral(
            5..11,
        ),
        BareAtom(
            12..16,
        ),
    ],
)
"
    );
}

#[test]
fn lib_normal_whitespace_separates_atoms() {
    let result = tokenize("a b\nc\td");
    assert_eq!(
        shown_scan(&result),
        "
Ok(
    [
        BareAtom(
            0..1,
        ),
        BareAtom(
            2..3,
        ),
        BareAtom(
            4..5,
        ),
        BareAtom(
            6..7,
        ),
    ],
)
"
    );
}

#[test]
fn lib_unicode_whitespace_separates_atoms() {
    // U+2009 is "THIN SPACE"
    // U+2029 is "PARAGRAPH SEPARATOR"
    let result = tokenize("a\u{2009}b\u{2029}c");
    assert_eq!(
        shown_scan(&result),
        "
Ok(
    [
        BareAtom(
            0..1,
        ),
        BareAtom(
            4..5,
        ),
        BareAtom(
            8..9,
        ),
    ],
)
"
    );
}

#[test]
fn lib_parse_atoms() {
    let result = parse_many("hello there");
    assert_eq!(
        shown_forms(&result),
        r#"
Ok(
    [
        Atom(
            "hello",
        ),
        Atom(
            "there",
        ),
    ],
)
"#
    );
    assert_eq!(result, Ok(vec![atom("hello"), atom("there")]));
}

#[test]
fn lib_parse_lists() {
    let result = parse_many("(hello) () ((there) (we (go)))");
    assert_eq!(
        shown_forms(&result),
        r#"
Ok(
    [
        List(
            [
                Atom(
                    "hello",
                ),
            ],
        ),
        List(
            [],
        ),
        List(
            [
                List(
                    [
                        Atom(
                            "there",
                        ),
                    ],
                ),
                List(
                    [
                        Atom(
                            "we",
                        ),
                        List(
                            [
                                Atom(
                                    "go",
                                ),
                            ],
                        ),
                    ],
                ),
            ],
        ),
    ],
)
"#
    );
    assert_eq!(
        result,
        Ok(vec![
            Sexp::List(vec![atom("hello")]),
            Sexp::List(vec![]),
            Sexp::List(vec![
                Sexp::List(vec![atom("there")]),
                Sexp::List(vec![atom("we"), Sexp::List(vec![atom("go")])]),
            ]),
        ])
    );
}

#[test]
fn lib_extra_close_paren() {
    let result = parse_many("hello )");
    assert_eq!(
        shown_forms(&result),
        "
Err(
    ExtraCloseParen(
        6,
    ),
)
"
    );
    assert_eq!(result, Err(Error::ExtraCloseParen(6)));
}

#[test]
fn lib_missing_close_paren() {
    let result = parse_many("(hello");
    assert_eq!(
        shown_forms(&result),
        "
Err(
    UnclosedParen(
        0,
    ),
)
"
    );
    assert_eq!(result, Err(Error::UnclosedParen(0)));
}

#[test]
fn lib_unterminated_string() {
    let result = parse_many(r#"("hello"#);
    assert_eq!(
        shown_forms(&result),
        "
Err(
    UnclosedString(
        1,
    ),
)
"
    );
    assert_eq!(result, Err(Error::UnclosedString(1)));
}

#[test]
fn lib_imbalanced_parens() {
    let result = parse_many("((((()))");
    assert_eq!(
        shown_forms(&result),
        "
Err(
    UnclosedParen(
        1,
    ),
)
"
    );
    assert_eq!(result, Err(Error::UnclosedParen(1)));
}

#[test]
fn lib_unicode() {
    let result = parse_many(r#"ðŸ™‚ (ðŸ™ƒ) "ðŸ§µ" "#);
    assert_eq!(
        shown_forms(&result),
        r#"
Ok(
    [
        Atom(
            "ðŸ™‚",
        ),
        List(
            [
                Atom(
                    "ðŸ™ƒ",
                ),
            ],
        ),
        Atom(
            "ðŸ§µ",
        ),
    ],
)
"#
    );
    assert_eq!(
        result,
        Ok(vec![atom("ðŸ™‚"), Sexp::List(vec![atom("ðŸ™ƒ")]), atom("ðŸ§µ")])
    );
}
