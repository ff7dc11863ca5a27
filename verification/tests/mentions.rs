use wysiwyg::ComposerModel;
use wysiwyg::ContainerKind;
use wysiwyg::DomNode;
use wysiwyg::MenuAction;

fn cv(s: &str) -> Vec<char> {
    s.chars().collect()
}

fn kind_of(tag: &str) -> ContainerKind {
    match tag {
        "p" => ContainerKind::Paragraph,
        "ol" => ContainerKind::OrderedList,
        "ul" => ContainerKind::UnorderedList,
        "li" => ContainerKind::ListItem,
        "blockquote" => ContainerKind::Quote,
        "code" => ContainerKind::CodeBlock,
        other => ContainerKind::Formatting { tag: cv(other) },
    }
}

fn tag_of(kind: &ContainerKind) -> String {
    match kind {
        ContainerKind::Paragraph => "p".to_string(),
        ContainerKind::OrderedList => "ol".to_string(),
        ContainerKind::UnorderedList => "ul".to_string(),
        ContainerKind::ListItem => "li".to_string(),
        ContainerKind::Quote => "blockquote".to_string(),
        ContainerKind::CodeBlock => "code".to_string(),
        ContainerKind::Formatting { tag } => tag.iter().collect(),
        ContainerKind::Link { .. } => "a".to_string(),
    }
}

fn parse_nodes(
    b: &[u8],
    i: &mut usize,
    offset: &mut usize,
    cursor: &mut Option<usize>,
) -> Vec<DomNode> {
    let mut out: Vec<DomNode> = Vec::new();
    while *i < b.len() {
        if b[*i] == b'<' {
            if *i + 1 < b.len() && b[*i + 1] == b'/' {
                break;
            }
            if b[*i..].starts_with(b"<br />") {
                out.push(DomNode::LineBreak);
                *offset += 1;
                *i += 6;
                continue;
            }
            let close = *i + b[*i..].iter().position(|&c| c == b'>').unwrap();
            let inside = std::str::from_utf8(&b[*i + 1..close]).unwrap().to_string();
            *i = close + 1;
            if inside.starts_with("a ") {
                let href_start = inside.find('"').unwrap() + 1;
                let href_end = href_start + inside[href_start..].find('"').unwrap();
                let url = cv(&inside[href_start..href_end]);
                let atomic = inside.contains("contenteditable=\"false\"");
                if atomic {
                    let end = *i + b[*i..]
                        .windows(4)
                        .position(|w| w == b"</a>")
                        .unwrap();
                    let label = cv(std::str::from_utf8(&b[*i..end]).unwrap());
                    *offset += label.len();
                    out.push(DomNode::Mention { url, label, attrs: Vec::new() });
                    *i = end + 4;
                } else {
                    let children = parse_nodes(b, i, offset, cursor);
                    assert!(b[*i..].starts_with(b"</a>"));
                    *i += 4;
                    out.push(DomNode::Container {
                        kind: ContainerKind::Link { url },
                        children,
                    });
                }
            } else {
                let kind = kind_of(&inside);
                let children = parse_nodes(b, i, offset, cursor);
                let closing = format!("</{}>", inside);
                assert!(b[*i..].starts_with(closing.as_bytes()));
                *i += closing.len();
                out.push(DomNode::Container { kind, children });
            }
        } else if b[*i] == b'|' {
            *cursor = Some(*offset);
            *i += 1;
        } else {
            let mut chars: Vec<char> = Vec::new();
            while *i < b.len() && b[*i] != b'<' && b[*i] != b'|' {
                chars.push(b[*i] as char);
                *i += 1;
            }
            *offset += chars.len();
            out.push(DomNode::Text { chars });
        }
    }
    out
}

/// Builds a model from markup with a `|` cursor marker.
fn cm(html: &str) -> ComposerModel {
    let b = html.as_bytes();
    let mut i = 0usize;
    let mut offset = 0usize;
    let mut cursor: Option<usize> = None;
    let children = parse_nodes(b, &mut i, &mut offset, &mut cursor);
    let c = cursor.expect("cursor marker missing");
    ComposerModel { children, start: c, end: c, history: Vec::new() }
}

fn emit_nodes(nodes: &[DomNode], out: &mut String, offset: &mut usize, c: usize, total: usize) {
    for node in nodes {
        match node {
            DomNode::Text { chars } => {
                let start = *offset;
                let len = chars.len();
                let mut body: String = chars.iter().collect();
                if start + len == total && body.ends_with(' ') {
                    body.pop();
                    body.push_str("&nbsp;");
                }
                if start < c && c < start + len {
                    let split = c - start;
                    body.insert(split, '|');
                }
                out.push_str(&body);
                *offset = start + len;
                if *offset == c {
                    out.push('|');
                }
            }
            DomNode::LineBreak => {
                out.push_str("<br />");
                *offset += 1;
                if *offset == c {
                    out.push('|');
                }
            }
            DomNode::Mention { url, label, attrs } => {
                let url_s: String = url.iter().collect();
                out.push_str(&format!("<a href=\"{}\"", url_s));
                for (k, v) in attrs {
                    let ks: String = k.iter().collect();
                    let vs: String = v.iter().collect();
                    out.push_str(&format!(" {}=\"{}\"", ks, vs));
                }
                out.push_str(" contenteditable=\"false\">");
                let label_s: String = label.iter().collect();
                out.push_str(&label_s);
                out.push_str("</a>");
                *offset += label.len();
                if *offset == c {
                    out.push('|');
                }
            }
            DomNode::Container { kind, children } => {
                match kind {
                    ContainerKind::Link { url } => {
                        let url_s: String = url.iter().collect();
                        out.push_str(&format!("<a href=\"{}\">", url_s));
                        emit_nodes(children, out, offset, c, total);
                        out.push_str("</a>");
                    }
                    other => {
                        let tag = tag_of(other);
                        out.push_str(&format!("<{}>", tag));
                        emit_nodes(children, out, offset, c, total);
                        out.push_str(&format!("</{}>", tag));
                    }
                }
            }
        }
    }
}

/// Serializes a model back to markup with a `|` cursor marker.
fn tx(model: &ComposerModel) -> String {
    let total = model.plain_text().len();
    let c = model.start;
    let mut out = String::new();
    if c == 0 {
        out.push('|');
    }
    let mut offset = 0usize;
    emit_nodes(&model.children, &mut out, &mut offset, c, total);
    out
}

#[test]
fn text_node_replace_all() {
    let mut model = cm("|");
    let update = model.replace_text("@alic".into());
    let MenuAction::Suggestion(suggestion) = update.menu_action else {
        panic!("No suggestion pattern found")
    };
    model.set_mention_from_suggestion(
        "https://matrix.to/#/@alice:matrix.org".into(),
        "Alice".into(),
        suggestion,
        vec![],
    );
    assert_eq!(
        tx(&model),
        "<a href=\"https://matrix.to/#/@alice:matrix.org\" contenteditable=\"false\">Alice</a>&nbsp;|",
    );
}

#[test]
fn text_node_replace_start() {
    let mut model = cm("| says hello");
    let update = model.replace_text("@ali".into());
    let MenuAction::Suggestion(suggestion) = update.menu_action else {
        panic!("No suggestion pattern found")
    };
    model.set_mention_from_suggestion(
        "https://matrix.to/#/@alice:matrix.org".into(),
        "Alice".into(),
        suggestion,
        vec![],
    );
    assert_eq!(
        tx(&model),
        "<a href=\"https://matrix.to/#/@alice:matrix.org\" contenteditable=\"false\">Alice</a>| says hello",
    );
}

#[test]
fn text_node_replace_middle() {
    let mut model = cm("Like | said");
    let update = model.replace_text("@ali".into());

    let MenuAction::Suggestion(suggestion) = update.menu_action else {
        panic!("No suggestion pattern found")
    };
    model.set_mention_from_suggestion(
        "https://matrix.to/#/@alice:matrix.org".into(),
        "Alice".into(),
        suggestion,
        vec![],
    );
    assert_eq!(tx(&model),
    "Like <a href=\"https://matrix.to/#/@alice:matrix.org\" contenteditable=\"false\">Alice</a>| said");
}

#[test]
fn text_node_replace_end() {
    let mut model = cm("hello |");
    let update = model.replace_text("@ali".into());
    let MenuAction::Suggestion(suggestion) = update.menu_action else {
        panic!("No suggestion pattern found")
    };
    model.set_mention_from_suggestion(
        "https://matrix.to/#/@alice:matrix.org".into(),
        "Alice".into(),
        suggestion,
        vec![],
    );
    assert_eq!(
        tx(&model),
        "hello <a href=\"https://matrix.to/#/@alice:matrix.org\" contenteditable=\"false\">Alice</a>&nbsp;|",
    );
}

#[test]
fn linebreak_insert_before() {
    let mut model = cm("|<br />");
    let update = model.replace_text("@ali".into());
    let MenuAction::Suggestion(suggestion) = update.menu_action else {
        panic!("No suggestion pattern found")
    };
    model.set_mention_from_suggestion(
        "https://matrix.to/#/@alice:matrix.org".into(),
        "Alice".into(),
        suggestion,
        vec![],
    );

    assert_eq!(
        tx(&model),
        "<a href=\"https://matrix.to/#/@alice:matrix.org\" contenteditable=\"false\">Alice</a>|<br />",
    );
}

#[test]
fn linebreak_insert_after() {
    let mut model = cm("<br />|");
    let update = model.replace_text("@ali".into());
    let MenuAction::Suggestion(suggestion) = update.menu_action else {
        panic!("No suggestion pattern found")
    };
    model.set_mention_from_suggestion(
        "https://matrix.to/#/@alice:matrix.org".into(),
        "Alice".into(),
        suggestion,
        vec![],
    );

    assert_eq!(
        tx(&model),
        "<br /><a href=\"https://matrix.to/#/@alice:matrix.org\" contenteditable=\"false\">Alice</a>&nbsp;|",
    );
}

#[test]
fn mention_insert_before() {
    let mut model = cm("|<a href=\"https://matrix.to/#/@test:example.org\" contenteditable=\"false\">test</a>");
    let update = model.replace_text("@ali".into());
    let MenuAction::Suggestion(suggestion) = update.menu_action else {
        panic!("No suggestion pattern found")
    };
    model.set_mention_from_suggestion(
        "https://matrix.to/#/@alice:matrix.org".into(),
        "Alice".into(),
        suggestion,
        vec![],
    );

    assert_eq!(
        tx(&model),
        "<a href=\"https://matrix.to/#/@alice:matrix.org\" contenteditable=\"false\">Alice</a>|<a href=\"https://matrix.to/#/@test:example.org\" contenteditable=\"false\">test</a>",
    );
}

#[test]
fn mention_insert_after() {
    let mut model =
        cm("<a href=\"https://matrix.to/#/@test:example.org\" contenteditable=\"false\">test</a>|");
    let update = model.replace_text("@ali".into());
    let MenuAction::Suggestion(suggestion) = update.menu_action else {
        panic!("No suggestion pattern found")
    };
    model.set_mention_from_suggestion(
        "https://matrix.to/#/@alice:matrix.org".into(),
        "Alice".into(),
        suggestion,
        vec![],
    );

    assert_eq!(
        tx(&model),
        "<a href=\"https://matrix.to/#/@test:example.org\" contenteditable=\"false\">test</a><a href=\"https://matrix.to/#/@alice:matrix.org\" contenteditable=\"false\">Alice</a>&nbsp;|",
    );
}

#[test]
fn formatting_node_replace_all() {
    let mut model = cm("<strong>|</strong>");
    let update = model.replace_text("@alic".into());
    let MenuAction::Suggestion(suggestion) = update.menu_action else {
        panic!("No suggestion pattern found")
    };
    model.set_mention_from_suggestion(
        "https://matrix.to/#/@alice:matrix.org".into(),
        "Alice".into(),
        suggestion,
        vec![],
    );
    assert_eq!(
        tx(&model),
        "<a href=\"https://matrix.to/#/@alice:matrix.org\" contenteditable=\"false\">Alice</a>&nbsp;|",
    );
}

#[test]
fn formatting_node_replace_start() {
    let mut model = cm("<strong>| says hello</strong>");
    let update = model.replace_text("@ali".into());
    let MenuAction::Suggestion(suggestion) = update.menu_action else {
        panic!("No suggestion pattern found")
    };
    model.set_mention_from_suggestion(
        "https://matrix.to/#/@alice:matrix.org".into(),
        "Alice".into(),
        suggestion,
        vec![],
    );

    assert_eq!(
        tx(&model),
        "<strong><a href=\"https://matrix.to/#/@alice:matrix.org\" contenteditable=\"false\">Alice</a>| says hello</strong>",
    );
}

#[test]
fn formatting_node_replace_middle() {
    let mut model = cm("<strong>Like | said</strong>");
    let update = model.replace_text("@ali".into());
    let MenuAction::Suggestion(suggestion) = update.menu_action else {
        panic!("No suggestion pattern found")
    };
    model.set_mention_from_suggestion(
        "https://matrix.to/#/@alice:matrix.org".into(),
        "Alice".into(),
        suggestion,
        vec![],
    );

    assert_eq!(
        tx(&model),
        "<strong>Like <a href=\"https://matrix.to/#/@alice:matrix.org\" contenteditable=\"false\">Alice</a>| said</strong>",
    );
}

#[test]
fn formatting_node_replace_end() {
    let mut model = cm("<strong>hello |</strong>");

    let update = model.replace_text("@ali".into());
    let MenuAction::Suggestion(suggestion) = update.menu_action else {
        panic!("No suggestion pattern found")
    };
    model.set_mention_from_suggestion(
        "https://matrix.to/#/@alice:matrix.org".into(),
        "Alice".into(),
        suggestion,
        vec![],
    );
    assert_eq!(
        tx(&model),
        "<strong>hello <a href=\"https://matrix.to/#/@alice:matrix.org\" contenteditable=\"false\">Alice</a>&nbsp;|</strong>",
    );
}

#[test]
fn link_insert_before() {
    let mut model =
        cm("| <a href=\"https://www.somelink.com\">regular link</a>");
    let update = model.replace_text("@ali".into());
    let MenuAction::Suggestion(suggestion) = update.menu_action else {
        panic!("No suggestion pattern found")
    };
    model.set_mention_from_suggestion(
        "https://matrix.to/#/@alice:matrix.org".into(),
        "Alice".into(),
        suggestion,
        vec![],
    );

    assert_eq!(
        tx(&model),
        "<a href=\"https://matrix.to/#/@alice:matrix.org\" contenteditable=\"false\">Alice</a>| <a href=\"https://www.somelink.com\">regular link</a>",
    );
}

#[test]
#[should_panic]
fn link_insert_middle() {
    let mut model =
        cm("<a href=\"https://www.somelink.com\">regular | link</a>");
    let update = model.replace_text("@ali".into());
    let MenuAction::Suggestion(_suggestion) = update.menu_action else {
        panic!("No suggestion pattern found")
    };
}

#[test]
fn link_insert_after() {
    let mut model =
        cm("<a href=\"https://www.somelink.com\">regular link|</a>");
    let update = model.replace_text(" @ali".into());
    let MenuAction::Suggestion(suggestion) = update.menu_action else {
        panic!("No suggestion pattern found")
    };
    model.set_mention_from_suggestion(
        "https://matrix.to/#/@alice:matrix.org".into(),
        "Alice".into(),
        suggestion,
        vec![],
    );

    assert_eq!(
        tx(&model),
        "<a href=\"https://www.somelink.com\">regular link</a> <a href=\"https://matrix.to/#/@alice:matrix.org\" contenteditable=\"false\">Alice</a>&nbsp;|",
    );
}

#[test]
fn list_item_insert_into_empty() {
    let mut model = cm("<ol><li>|</li></ol>");
    let update = model.replace_text("@alic".into());
    let MenuAction::Suggestion(suggestion) = update.menu_action else {
        panic!("No suggestion pattern found")
    };
    model.set_mention_from_suggestion(
        "https://matrix.to/#/@alice:matrix.org".into(),
        "Alice".into(),
        suggestion,
        vec![],
    );
    assert_eq!(
        tx(&model),
        "<ol><li><a href=\"https://matrix.to/#/@alice:matrix.org\" contenteditable=\"false\">Alice</a>&nbsp;|</li></ol>",
    );
}

#[test]
fn list_item_replace_start() {
    let mut model = cm("<ol><li>| says hello</li></ol>");
    let update = model.replace_text("@ali".into());
    let MenuAction::Suggestion(suggestion) = update.menu_action else {
        panic!("No suggestion pattern found")
    };
    model.set_mention_from_suggestion(
        "https://matrix.to/#/@alice:matrix.org".into(),
        "Alice".into(),
        suggestion,
        vec![],
    );
    assert_eq!(
        tx(&model),
        "<ol><li><a href=\"https://matrix.to/#/@alice:matrix.org\" contenteditable=\"false\">Alice</a>| says hello</li></ol>",
    );
}

#[test]
fn list_item_replace_middle() {
    let mut model = cm("<ol><li>Like | said</li></ol>");
    let update = model.replace_text("@ali".into());

    let MenuAction::Suggestion(suggestion) = update.menu_action else {
        panic!("No suggestion pattern found")
    };
    model.set_mention_from_suggestion(
        "https://matrix.to/#/@alice:matrix.org".into(),
        "Alice".into(),
        suggestion,
        vec![],
    );
    assert_eq!(tx(&model),
    "<ol><li>Like <a href=\"https://matrix.to/#/@alice:matrix.org\" contenteditable=\"false\">Alice</a>| said</li></ol>");
}

#[test]
fn list_item_replace_end() {
    let mut model = cm("<ol><li>hello |</li></ol>");
    let update = model.replace_text("@ali".into());
    let MenuAction::Suggestion(suggestion) = update.menu_action else {
        panic!("No suggestion pattern found")
    };
    model.set_mention_from_suggestion(
        "https://matrix.to/#/@alice:matrix.org".into(),
        "Alice".into(),
        suggestion,
        vec![],
    );
    assert_eq!(
        tx(&model),
        "<ol><li>hello <a href=\"https://matrix.to/#/@alice:matrix.org\" contenteditable=\"false\">Alice</a>&nbsp;|</li></ol>",
    );
}

#[test]
#[should_panic]
fn codeblock_insert_anywhere() {
    let mut model = cm("<code>regular | link</code>");
    let update = model.replace_text("@ali".into());
    let MenuAction::Suggestion(_suggestion) = update.menu_action else {
        panic!("No suggestion pattern found")
    };
}

#[test]
fn quote_insert_into_empty() {
    let mut model = cm("<blockquote><p>|</p></blockquote>");
    let update = model.replace_text("@alic".into());
    let MenuAction::Suggestion(suggestion) = update.menu_action else {
        panic!("No suggestion pattern found")
    };
    model.set_mention_from_suggestion(
        "https://matrix.to/#/@alice:matrix.org".into(),
        "Alice".into(),
        suggestion,
        vec![],
    );
    assert_eq!(
        tx(&model),
        "<blockquote><p><a href=\"https://matrix.to/#/@alice:matrix.org\" contenteditable=\"false\">Alice</a>&nbsp;|</p></blockquote>",
    );
}

#[test]
fn quote_replace_start() {
    let mut model = cm("<blockquote><p>| says hello</p></blockquote>");
    let update = model.replace_text("@ali".into());
    let MenuAction::Suggestion(suggestion) = update.menu_action else {
        panic!("No suggestion pattern found")
    };
    model.set_mention_from_suggestion(
        "https://matrix.to/#/@alice:matrix.org".into(),
        "Alice".into(),
        suggestion,
        vec![],
    );
    assert_eq!(
        tx(&model),
        "<blockquote><p><a href=\"https://matrix.to/#/@alice:matrix.org\" contenteditable=\"false\">Alice</a>| says hello</p></blockquote>",
    );
}

#[test]
fn quote_replace_middle() {
    let mut model = cm("<blockquote><p>Like | said</p></blockquote>");
    let update = model.replace_text("@ali".into());

    let MenuAction::Suggestion(suggestion) = update.menu_action else {
        panic!("No suggestion pattern found")
    };
    model.set_mention_from_suggestion(
        "https://matrix.to/#/@alice:matrix.org".into(),
        "Alice".into(),
        suggestion,
        vec![],
    );
    assert_eq!(tx(&model),
    "<blockquote><p>Like <a href=\"https://matrix.to/#/@alice:matrix.org\" contenteditable=\"false\">Alice</a>| said</p></blockquote>");
}

#[test]
fn quote_replace_end() {
    let mut model = cm("<blockquote><p>hello |</p></blockquote>");
    let update = model.replace_text("@ali".into());
    let MenuAction::Suggestion(suggestion) = update.menu_action else {
        panic!("No suggestion pattern found")
    };
    model.set_mention_from_suggestion(
        "https://matrix.to/#/@alice:matrix.org".into(),
        "Alice".into(),
        suggestion,
        vec![],
    );
    assert_eq!(
        tx(&model),
        "<blockquote><p>hello <a href=\"https://matrix.to/#/@alice:matrix.org\" contenteditable=\"false\">Alice</a>&nbsp;|</p></blockquote>",
    );
}

#[test]
fn paragraph_insert_into_empty() {
    let mut model = cm("<p>|</p>");
    let update = model.replace_text("@alic".into());
    let MenuAction::Suggestion(suggestion) = update.menu_action else {
        panic!("No suggestion pattern found")
    };
    model.set_mention_from_suggestion(
        "https://matrix.to/#/@alice:matrix.org".into(),
        "Alice".into(),
        suggestion,
        vec![],
    );
    assert_eq!(
        tx(&model),
        "<p><a href=\"https://matrix.to/#/@alice:matrix.org\" contenteditable=\"false\">Alice</a>&nbsp;|</p>",
    );
}

#[test]
fn paragraph_replace_start() {
    let mut model = cm("<p>| says hello</p>");
    let update = model.replace_text("@ali".into());
    let MenuAction::Suggestion(suggestion) = update.menu_action else {
        panic!("No suggestion pattern found")
    };
    model.set_mention_from_suggestion(
        "https://matrix.to/#/@alice:matrix.org".into(),
        "Alice".into(),
        suggestion,
        vec![],
    );
    assert_eq!(
        tx(&model),
        "<p><a href=\"https://matrix.to/#/@alice:matrix.org\" contenteditable=\"false\">Alice</a>| says hello</p>",
    );
}

#[test]
fn paragraph_replace_middle() {
    let mut model = cm("<p>Like | said</p>");
    let update = model.replace_text("@ali".into());

    let MenuAction::Suggestion(suggestion) = update.menu_action else {
        panic!("No suggestion pattern found")
    };
    model.set_mention_from_suggestion(
        "https://matrix.to/#/@alice:matrix.org".into(),
        "Alice".into(),
        suggestion,
        vec![],
    );
    assert_eq!(tx(&model),
    "<p>Like <a href=\"https://matrix.to/#/@alice:matrix.org\" contenteditable=\"false\">Alice</a>| said</p>");
}

#[test]
fn paragraph_replace_end() {
    let mut model = cm("<p>hello |</p>");
    let update = model.replace_text("@ali".into());
    let MenuAction::Suggestion(suggestion) = update.menu_action else {
        panic!("No suggestion pattern found")
    };
    model.set_mention_from_suggestion(
        "https://matrix.to/#/@alice:matrix.org".into(),
        "Alice".into(),
        suggestion,
        vec![],
    );
    assert_eq!(
        tx(&model),
        "<p>hello <a href=\"https://matrix.to/#/@alice:matrix.org\" contenteditable=\"false\">Alice</a>&nbsp;|</p>",
    );
}

#[test]
fn markup_round_trip_is_idempotent() {
    let samples = [
        "hello |",
        "| says hello",
        "Like | said",
        "|<br />",
        "<br />|",
        "<p>hello |</p>",
        "<ol><li>Like | said</li></ol>",
        "<blockquote><p>| says hello</p></blockquote>",
        "<strong>hello |</strong>",
        "| <a href=\"https://www.somelink.com\">regular link</a>",
    ];
    for sample in samples {
        let once = tx(&cm(sample));
        let twice = tx(&cm(&once));
        assert_eq!(once, twice);
    }
}
