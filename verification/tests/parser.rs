use rundown::sexp::{parse_many, Error, Sexp};

fn shown_parse(result: &Result<Vec<Sexp>, Error>) -> String {
    format!("\n{:#?}\n", result)
}

fn text_atom(text: &str) -> Sexp {
    Sexp::Atom(text.to_string())
}

#[test]
fn parser_parse_atoms() {
    let result = parse_many("hello there");
    assert_eq!(
        shown_parse(&result),
        r#"
Ok(
    [
        Atom(
            "hello",
        ),
        Atom(
            "there",
        ),
    ],
)
"#
    );
    assert_eq!(result, Ok(vec![text_atom("hello"), text_atom("there")]));
}

#[test]
fn parser_parse_lists() {
    let result = parse_many("(hello) () ((there) (we (go)))");
    assert_eq!(
        shown_parse(&result),
        r#"
Ok(
    [
        List(
            [
                Atom(
                    "hello",
                ),
            ],
        ),
        List(
            [],
        ),
        List(
            [
                List(
                    [
                        Atom(
                            "there",
                        ),
                    ],
                ),
                List(
                    [
                        Atom(
                            "we",
                        ),
                        List(
                            [
                                Atom(
                                    "go",
                                ),
                            ],
                        ),
                    ],
                ),
            ],
        ),
    ],
)
"#
    );
    assert_eq!(
        result,
        Ok(vec![
            Sexp::List(vec![text_atom("hello")]),
            Sexp::List(vec![]),
            Sexp::List(vec![
                Sexp::List(vec![text_atom("there")]),
                Sexp::List(vec![text_atom("we"), Sexp::List(vec![text_atom("go")])]),
            ]),
        ])
    );
}

#[test]
fn parser_extra_close_paren() {
    let result = parse_many("hello )");
    assert_eq!(
        shown_parse(&result),
        "
Err(
    ExtraCloseParen(
        6,
    ),
)
"
    );
    assert_eq!(result, Err(Error::ExtraCloseParen(6)));
}

#[test]
fn parser_missing_close_paren() {
    let result = parse_many("(hello");
    assert_eq!(
        shown_parse(&result),
        "
Err(
    UnclosedParen(
        0,
    ),
)
"
    );
    assert_eq!(result, Err(Error::UnclosedParen(0)));
}

#[test]
fn parser_unterminated_string() {
    let result = parse_many(r#"("hello"#);
    assert_eq!(
        shown_parse(&result),
        "
Err(
    UnclosedString(
        1,
    ),
)
"
    );
    assert_eq!(result, Err(Error::UnclosedString(1)));
}

#[test]
fn parser_imbalanced_parens() {
    let result = parse_many("((((()))");
    assert_eq!(
        shown_parse(&result),
        "
Err(
    UnclosedParen(
        1,
    ),
)
"
    );
    assert_eq!(result, Err(Error::UnclosedParen(1)));
}

#[test]
fn parser_unicode() {
    let result = parse_many(r#"ðŸ™‚ (ðŸ™ƒ) "ðŸ§µ" "#);
    assert_eq!(
        shown_parse(&result),
        r#"
Ok(
    [
        Atom(
            "ðŸ™‚",
        ),
        List(
            [
                Atom(
                    "ðŸ™ƒ",
                ),
            ],
        ),
        Atom(
            "ðŸ§µ",
        ),
    ],
)
"#
    );
    assert_eq!(
        result,
        Ok(vec![text_atom("ðŸ™‚"), Sexp::List(vec![text_atom("ðŸ™ƒ")]), text_atom("ðŸ§µ")])
    );
}

#[test]
fn string_escapes() {
    let result = parse_many(r#" "\n \"\u263A\" \t \\" "#);
    assert_eq!(result, Ok(vec![text_atom("\n \"\u{263A}\" \t \\")]));
    assert_eq!(
        shown_parse(&result),
        "
Ok(
    [
        Atom(
            \"\\n \\\"\u{263A}\\\" \\t \\\\\",
        ),
    ],
)
"
    );
}

#[test]
fn string_escapes_only_support_four_digit_unicode() {
    let result = parse_many(r#" "\n \U1F642 \t" "#);
    assert_eq!(
        shown_parse(&result),
        "
Err(
    UnknownEscape(
        2..15,
    ),
)
"
    );
    assert_eq!(result, Err(Error::UnknownEscape(2..15)));
}

#[test]
fn bad_string_escape() {
    let result = parse_many(r#" "\a" "#);
    assert_eq!(
        shown_parse(&result),
        "
Err(
    UnknownEscape(
        2..4,
    ),
)
"
    );
    assert_eq!(result, Err(Error::UnknownEscape(2..4)));
}
