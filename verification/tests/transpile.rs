use zinifier::error::Error;
use zinifier::macros::{parse_block, parse_block_end, scan_macro, BlockMacro, TypstMacroNode};
use zinifier::markup::{markdown_to_typst_content, sanitize_label, MarkupNode};
use zinifier::typ::typst_escape;

fn text(s: &str) -> MarkupNode {
    MarkupNode::Text { content: s.to_string() }
}

#[test]
fn sanitize_drops_digits() {
    assert_eq!(sanitize_label("NdT1"), "NdT");
    assert_eq!(sanitize_label("123"), "");
}

#[test]
fn escape_at_sign() {
    assert_eq!(typst_escape("mail@host"), "mail\\@host");
    assert_eq!(typst_escape("no marker"), "no marker");
    assert_eq!(typst_escape("a@b@c"), "a\\@b\\@c");
}

#[test]
fn heading_and_text() {
    let nodes = vec![MarkupNode::Heading { level: 2, children: vec![text("Title")] }];
    assert_eq!(markdown_to_typst_content(&nodes).unwrap(), "== Title\n");
}

#[test]
fn paragraph_breaks_and_verbatim() {
    let nodes = vec![
        MarkupNode::Paragraph {
            children: vec![
                text("one"),
                MarkupNode::SoftBreak,
                MarkupNode::InlineVerbatim { markup: "`code`".to_string() },
                MarkupNode::HardBreak,
                text("two"),
            ],
        },
    ];
    assert_eq!(markdown_to_typst_content(&nodes).unwrap(), "\n\none\n\n`code`\\\ntwo\n");
}

#[test]
fn strong_flattens_children() {
    let nodes = vec![
        MarkupNode::Strong {
            children: vec![
                text("bold"),
                MarkupNode::SoftBreak,
                text("text"),
                MarkupNode::InlineVerbatim { markup: "*".to_string() },
            ],
        },
    ];
    assert_eq!(markdown_to_typst_content(&nodes).unwrap(), "#strong([bold\ntext])");
}

#[test]
fn list_items_by_kind() {
    let nodes = vec![
        MarkupNode::ListItem { ordered: false, children: vec![text("a")] },
        MarkupNode::ListItem { ordered: true, children: vec![text("b")] },
    ];
    assert_eq!(markdown_to_typst_content(&nodes).unwrap(), "\n- a\n+ b");
}

#[test]
fn image_with_fixed_height() {
    let nodes = vec![MarkupNode::Image { url: "pic.png".to_string() }];
    assert_eq!(
        markdown_to_typst_content(&nodes).unwrap(),
        "\n#image(height: 100%, \"pic.png\")\n",
    );
}

#[test]
fn footnote_numeric_label_inlined_plain() {
    let nodes = vec![
        text("a"),
        MarkupNode::FootnoteReference,
        MarkupNode::FootnoteDefinition {
            label: Some("1".to_string()),
            children: vec![text("note")],
        },
    ];
    assert_eq!(markdown_to_typst_content(&nodes).unwrap(), "a\n#footnote[note]");
}

#[test]
fn footnote_textual_label_gains_prefix() {
    let nodes = vec![
        text("a"),
        MarkupNode::FootnoteReference,
        MarkupNode::FootnoteDefinition {
            label: Some("NdT1".to_string()),
            children: vec![text("note")],
        },
    ];
    assert_eq!(
        markdown_to_typst_content(&nodes).unwrap(),
        "a\n#footnote[#emph[NdT:] note]",
    );
}

#[test]
fn footnotes_replace_in_descending_order() {
    let mut nodes = Vec::new();
    for i in 0..12 {
        nodes.push(MarkupNode::FootnoteReference);
        nodes.push(MarkupNode::FootnoteDefinition {
            label: Some(format!("{}", i + 1)),
            children: vec![text(&format!("n{}", i + 1))],
        });
    }
    let out = markdown_to_typst_content(&nodes).unwrap();
    assert!(out.starts_with("#footnote[n1]"));
    assert!(out.ends_with("#footnote[n12]"));
    for k in 1..=12 {
        assert!(!out.contains(&format!("[^{}]", k)));
    }
}

#[test]
fn footnote_mismatch_is_fatal() {
    let nodes = vec![text("a"), MarkupNode::FootnoteReference];
    match markdown_to_typst_content(&nodes) {
        Err(Error::FootnoteConsistency { counted, collected }) => {
            assert_eq!(counted, 1);
            assert_eq!(collected, 0);
        },
        _ => panic!("expected a footnote consistency fault"),
    }
}

#[test]
fn macro_body_restarts_numbering() {
    let inner = vec![
        MarkupNode::FootnoteReference,
        MarkupNode::FootnoteDefinition {
            label: Some("1".to_string()),
            children: vec![text("inner")],
        },
    ];
    let nodes = vec![
        MarkupNode::FootnoteReference,
        MarkupNode::MacroInvocation {
            name: "note".to_string(),
            args: vec![],
            body: String::new(),
            children: inner,
        },
        MarkupNode::FootnoteDefinition {
            label: Some("1".to_string()),
            children: vec![text("outer")],
        },
    ];
    assert_eq!(
        markdown_to_typst_content(&nodes).unwrap(),
        "#footnote[outer]#footnote[inner]",
    );
}

#[test]
fn macro_failure_aborts_whole_transpile() {
    let nodes = vec![
        MarkupNode::MacroInvocation {
            name: "note".to_string(),
            args: vec![],
            body: String::new(),
            children: vec![MarkupNode::FootnoteReference],
        },
    ];
    assert!(matches!(
        markdown_to_typst_content(&nodes),
        Err(Error::FootnoteConsistency { .. })
    ));
}

#[test]
fn unlabelled_footnote_inlined_plain() {
    let nodes = vec![
        MarkupNode::FootnoteReference,
        MarkupNode::FootnoteDefinition { label: None, children: vec![text("n")] },
    ];
    assert_eq!(markdown_to_typst_content(&nodes).unwrap(), "#footnote[n]");
}

#[test]
fn block_macro_capture() {
    let lines = vec![
        "{% note %}".to_string(),
        "hello".to_string(),
        "{% endnote %}".to_string(),
    ];
    let (m, consumed) = scan_macro(&lines).unwrap();
    assert_eq!(m.name, "note");
    assert_eq!(m.body, "hello\n");
    assert!(m.args.is_empty());
    assert_eq!(consumed, 3);
    let rendered = TypstMacroNode::from_raw_macro(&m);
    assert_eq!(rendered.0, "\n\n#note(\n  [\nhello\n  ]\n)\n");
}

#[test]
fn block_macro_arguments() {
    let m = parse_block("{% figure width: 3 caption: intro flag: true %}").unwrap();
    assert_eq!(m.name, "figure");
    assert_eq!(m.args.len(), 3);
    assert_eq!(m.args[0], ("width".to_string(), "3".to_string()));
    assert_eq!(m.args[1], ("caption".to_string(), "intro".to_string()));
    assert_eq!(m.args[2], ("flag".to_string(), "true".to_string()));
    let rendered = TypstMacroNode::from_raw_macro(&BlockMacro {
        name: m.name,
        args: m.args,
        body: "b".to_string(),
    });
    assert_eq!(
        rendered.0,
        "\n\n#figure(\n  width: 3,\n  caption: \"intro\",\n  flag: true,\n  [\nb  ]\n)\n",
    );
}

#[test]
fn malformed_marker_is_content() {
    assert!(parse_block("{% %}").is_none());
    assert!(parse_block("not a marker").is_none());
    assert!(parse_block("{% name key %}").is_none());
    assert!(parse_block("{% endnote %}").is_none());
}

#[test]
fn capture_runs_to_end_of_input() {
    let lines = vec!["{% note %}".to_string(), "a".to_string(), "b".to_string()];
    let (m, consumed) = scan_macro(&lines).unwrap();
    assert_eq!(m.body, "a\nb\n");
    assert_eq!(consumed, 3);
}

#[test]
fn intervening_opener_is_body_content() {
    let lines = vec![
        "{% note %}".to_string(),
        "{% other %}".to_string(),
        "x".to_string(),
        "{% endnote %}".to_string(),
    ];
    let (m, consumed) = scan_macro(&lines).unwrap();
    assert_eq!(m.body, "{% other %}\nx\n");
    assert_eq!(consumed, 4);
}

#[test]
fn body_lines_keep_their_indentation() {
    let lines = vec![
        "{% note %}".to_string(),
        "  indented".to_string(),
        "\ttabbed".to_string(),
        "{% endnote %}".to_string(),
    ];
    let (m, consumed) = scan_macro(&lines).unwrap();
    assert_eq!(m.body, "  indented\n\ttabbed\n");
    assert_eq!(consumed, 4);
}

#[test]
fn end_marker_matches_name() {
    assert!(parse_block_end("{% endnote %}", "note"));
    assert!(!parse_block_end("{% endnote %}", "figure"));
    assert!(!parse_block_end("{% note %}", "note"));
}
