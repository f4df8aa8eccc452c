use rundown::markdown::{
    components_from, fence_lines, resolve_component, to_components, to_range_components,
    BlockKind, CodeBlockFlavor, Component, ComponentError, EventKind, MarkdownEvent,
    RangeComponent,
};

fn other(start: usize, end: usize) -> MarkdownEvent {
    MarkdownEvent { kind: EventKind::Other, offset: start..end }
}

fn sources(components: &[Component]) -> String {
    let mut whole = String::new();
    for component in components {
        match component {
            Component::LiteralText(source) => whole.push_str(source),
            Component::CodeBlock(source, _, _) => whole.push_str(source),
        }
    }
    whole
}

#[test]
fn no_events_give_the_whole_text() {
    assert_eq!(
        to_range_components(vec![], 12),
        Ok(vec![RangeComponent::LiteralText(0..12)])
    );
    assert_eq!(components_from("hello\nthere\n", vec![]), Ok(vec![Component::LiteralText("hello\nthere\n")]));
}

#[test]
fn literal_text_grows_to_the_latest_end() {
    let events = vec![other(0, 5), other(0, 9), other(2, 4)];
    assert_eq!(
        to_range_components(events, 20),
        Ok(vec![RangeComponent::LiteralText(0..20)])
    );
}

#[test]
fn code_block_splits_the_text() {
    let events = vec![
        other(0, 5),
        MarkdownEvent { kind: EventKind::StartCodeBlock(BlockKind::Fenced("rust".to_string())), offset: 7..24 },
        MarkdownEvent { kind: EventKind::Text("let x".to_string()), offset: 15..20 },
        MarkdownEvent { kind: EventKind::Text(";\n".to_string()), offset: 20..21 },
        MarkdownEvent { kind: EventKind::EndCodeBlock, offset: 7..24 },
        other(26, 29),
    ];
    assert_eq!(
        to_range_components(events, 30),
        Ok(vec![
            RangeComponent::LiteralText(0..7),
            RangeComponent::CodeBlock(BlockKind::Fenced("rust".to_string()), 7..24, "let x;\n".to_string()),
            RangeComponent::LiteralText(24..30),
        ])
    );
}

#[test]
fn unexpected_event_inside_code_block() {
    let events = vec![
        MarkdownEvent { kind: EventKind::StartCodeBlock(BlockKind::Indented), offset: 0..8 },
        other(4, 8),
        MarkdownEvent { kind: EventKind::EndCodeBlock, offset: 0..8 },
    ];
    assert_eq!(to_range_components(events, 8), Err(ComponentError::UnexpectedEvent));
}

#[test]
fn nested_start_inside_code_block_is_unexpected() {
    let events = vec![
        MarkdownEvent { kind: EventKind::StartCodeBlock(BlockKind::Indented), offset: 0..8 },
        MarkdownEvent { kind: EventKind::StartCodeBlock(BlockKind::Indented), offset: 0..8 },
    ];
    assert_eq!(to_range_components(events, 8), Err(ComponentError::UnexpectedEvent));
}

#[test]
fn events_that_end_inside_a_code_block() {
    let events = vec![
        MarkdownEvent { kind: EventKind::StartCodeBlock(BlockKind::Indented), offset: 0..8 },
        MarkdownEvent { kind: EventKind::Text("code".to_string()), offset: 4..8 },
    ];
    assert_eq!(to_range_components(events, 8), Err(ComponentError::NoClosingTag));
}

#[test]
fn resolve_literal_text() {
    assert_eq!(
        resolve_component(RangeComponent::LiteralText(2..8), "a é🙂 b"),
        Ok(Component::LiteralText("é🙂"))
    );
}

#[test]
fn resolve_rejects_a_range_inside_a_character() {
    assert_eq!(
        resolve_component(RangeComponent::LiteralText(0..2), "é🙂"),
        Ok(Component::LiteralText("é"))
    );
    assert_eq!(
        resolve_component(RangeComponent::LiteralText(0..3), "é🙂"),
        Err(ComponentError::BadOffset(0..3))
    );
    assert_eq!(
        resolve_component(RangeComponent::LiteralText(1..2), "é🙂"),
        Err(ComponentError::BadOffset(1..2))
    );
}

#[test]
fn resolve_rejects_a_range_out_of_order_or_out_of_bounds() {
    assert_eq!(
        resolve_component(RangeComponent::LiteralText(3..1), "abcd"),
        Err(ComponentError::BadOffset(3..1))
    );
    assert_eq!(
        resolve_component(RangeComponent::LiteralText(2..5), "abcd"),
        Err(ComponentError::BadOffset(2..5))
    );
    assert_eq!(
        resolve_component(RangeComponent::CodeBlock(BlockKind::Indented, 2..5, String::new()), "abcd"),
        Err(ComponentError::BadOffset(2..5))
    );
}

#[test]
fn resolve_indented_code_block() {
    assert_eq!(
        resolve_component(
            RangeComponent::CodeBlock(BlockKind::Indented, 4..9, "code\n".to_string()),
            "    code\n"
        ),
        Ok(Component::CodeBlock("code\n", CodeBlockFlavor::Indented, "code\n".to_string()))
    );
}

#[test]
fn resolve_fenced_code_block_inside_the_text() {
    let input = "a\n```sh\nls\n```\nb\n";
    assert_eq!(
        resolve_component(
            RangeComponent::CodeBlock(BlockKind::Fenced("sh".to_string()), 2..14, "ls\n".to_string()),
            input
        ),
        Ok(Component::CodeBlock(
            "```sh\nls\n```",
            CodeBlockFlavor::Fenced {
                start_line: "```sh",
                end_line: Some("```"),
                info_string: "sh".to_string(),
            },
            "ls\n".to_string()
        ))
    );
}

#[test]
fn resolve_fenced_code_block_at_the_end_of_the_text() {
    let input = "```sh\nls\n";
    assert_eq!(
        resolve_component(
            RangeComponent::CodeBlock(BlockKind::Fenced("sh".to_string()), 0..9, "ls\n".to_string()),
            input
        ),
        Ok(Component::CodeBlock(
            "```sh\nls\n",
            CodeBlockFlavor::Fenced { start_line: "```sh", end_line: None, info_string: "sh".to_string() },
            "ls\n".to_string()
        ))
    );
}

#[test]
fn fenced_code_block_without_newline() {
    assert_eq!(
        resolve_component(
            RangeComponent::CodeBlock(BlockKind::Fenced(String::new()), 0..3, String::new()),
            "```"
        ),
        Err(ComponentError::NoNewline)
    );
    assert_eq!(
        fence_lines(BlockKind::Fenced(String::new()), "```", false),
        Err(ComponentError::NoNewline)
    );
}

#[test]
fn fence_lines_of_one_newline() {
    assert_eq!(
        fence_lines(BlockKind::Fenced("é".to_string()), "~~~é\n", false),
        Ok(CodeBlockFlavor::Fenced { start_line: "~~~é", end_line: Some(""), info_string: "é".to_string() })
    );
    assert_eq!(fence_lines(BlockKind::Indented, "no newline", false), Ok(CodeBlockFlavor::Indented));
}

#[test]
fn first_failing_component_is_reported() {
    let events = vec![
        MarkdownEvent { kind: EventKind::StartCodeBlock(BlockKind::Fenced(String::new())), offset: 2..4 },
        MarkdownEvent { kind: EventKind::EndCodeBlock, offset: 2..9 },
    ];
    assert_eq!(components_from("abcd", events), Err(ComponentError::NoNewline));
    let events = vec![
        MarkdownEvent { kind: EventKind::StartCodeBlock(BlockKind::Indented), offset: 7..9 },
        MarkdownEvent { kind: EventKind::EndCodeBlock, offset: 7..9 },
    ];
    assert_eq!(components_from("abcd", events), Err(ComponentError::BadOffset(0..7)));
}

#[test]
fn markdown_without_code_is_one_literal_text() {
    let input = "# Title\n\nSome *text* here.\n";
    assert_eq!(to_components(input), Ok(vec![Component::LiteralText(input)]));
}

#[test]
fn markdown_with_a_fenced_code_block() {
    let input = "hello\n\n```rust\nfn main() {}\n```\n\nbye\n";
    let components = to_components(input).unwrap();
    assert_eq!(sources(&components), input);
    assert_eq!(
        components,
        vec![
            Component::LiteralText("hello\n\n"),
            Component::CodeBlock(
                "```rust\nfn main() {}\n```",
                CodeBlockFlavor::Fenced {
                    start_line: "```rust",
                    end_line: Some("```"),
                    info_string: "rust".to_string(),
                },
                "fn main() {}\n".to_string()
            ),
            Component::LiteralText("\n\nbye\n"),
        ]
    );
}

#[test]
fn markdown_with_an_unclosed_fence_runs_to_the_end() {
    let input = "```\ncode\n";
    let components = to_components(input).unwrap();
    assert_eq!(sources(&components), input);
    assert_eq!(
        components,
        vec![
            Component::LiteralText(""),
            Component::CodeBlock(
                "```\ncode\n",
                CodeBlockFlavor::Fenced { start_line: "```", end_line: None, info_string: String::new() },
                "code\n".to_string()
            ),
            Component::LiteralText(""),
        ]
    );
}

#[test]
fn markdown_with_an_indented_code_block() {
    let input = "text\n\n    code\n\nmore\n";
    let components = to_components(input).unwrap();
    assert_eq!(sources(&components), input);
    assert_eq!(components.len(), 3);
    assert!(matches!(
        &components[1],
        Component::CodeBlock(_, CodeBlockFlavor::Indented, body) if body == "code\n"
    ));
}

#[test]
fn range_components_take_turns() {
    let inputs = [
        "",
        "plain\n",
        "```\na\n```\n",
        "a\n\n```x\nb\n```\n\n    c\n\nd\n\n~~~\ne\n~~~",
        "    only code\n",
    ];
    for input in inputs {
        let components = to_components(input).unwrap();
        assert_eq!(components.len() % 2, 1, "{:?}", input);
        for (i, component) in components.iter().enumerate() {
            assert_eq!(matches!(component, Component::LiteralText(_)), i % 2 == 0, "{:?}", input);
        }
        assert_eq!(sources(&components), input);
    }
    let events = vec![
        MarkdownEvent { kind: EventKind::StartCodeBlock(BlockKind::Indented), offset: 3..5 },
        MarkdownEvent { kind: EventKind::EndCodeBlock, offset: 1..6 },
        other(2, 4),
        MarkdownEvent { kind: EventKind::StartCodeBlock(BlockKind::Indented), offset: 8..9 },
        MarkdownEvent { kind: EventKind::EndCodeBlock, offset: 8..9 },
    ];
    assert_eq!(
        to_range_components(events, 10),
        Ok(vec![
            RangeComponent::LiteralText(0..3),
            RangeComponent::CodeBlock(BlockKind::Indented, 3..5, String::new()),
            RangeComponent::LiteralText(6..8),
            RangeComponent::CodeBlock(BlockKind::Indented, 8..9, String::new()),
            RangeComponent::LiteralText(9..10),
        ])
    );
}
