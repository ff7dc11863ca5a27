use wysiwyg::ComposerModel;
use wysiwyg::DomNode;
use wysiwyg::DomRange;
use wysiwyg::MenuAction;
use wysiwyg::TextUpdate;

fn cv(s: &str) -> Vec<char> {
    s.chars().collect()
}

fn text_model(text: &str, start: usize, end: usize) -> ComposerModel {
    ComposerModel {
        children: vec![DomNode::Text { chars: cv(text) }],
        start,
        end,
        history: Vec::new(),
    }
}

fn string_of(v: Vec<char>) -> String {
    v.into_iter().collect()
}

#[test]
fn empty_document_append_adds_separator() {
    let mut model = ComposerModel::new();
    let update = model.insert_node_at_cursor(DomNode::new_mention(
        cv("https://example.org/u"),
        cv("Alice"),
        vec![],
    ));
    assert!(matches!(update.text_update, TextUpdate::ReplaceAll { .. }));
    assert_eq!(string_of(model.plain_text()), "Alice ");
    assert_eq!(model.start, 6);
    assert_eq!(model.end, 6);
}

#[test]
fn selection_insertion_is_rejected() {
    let mut model = text_model("hello there", 2, 7);
    let update = model.insert_node_at_cursor(DomNode::new_mention(
        cv("https://example.org/u"),
        cv("Alice"),
        vec![],
    ));
    assert!(matches!(update.text_update, TextUpdate::Keep));
    assert_eq!(string_of(model.plain_text()), "hello there");
    assert_eq!(model.start, 2);
    assert_eq!(model.end, 7);
}

#[test]
fn cursor_rests_after_node_and_separator() {
    let mut model = text_model("hello ", 6, 6);
    model.replace_text("@ali".into());
    assert_eq!(string_of(model.plain_text()), "hello @ali");
    assert_eq!(model.start, 10);
    let mut model2 = text_model("hello ", 6, 6);
    let update = model2.replace_text("@ali".into());
    let MenuAction::Suggestion(suggestion) = update.menu_action else {
        panic!("No suggestion pattern found")
    };
    assert_eq!(suggestion.start, 6);
    assert_eq!(suggestion.end, 10);
    model2.set_mention_from_suggestion(
        "https://example.org/u".into(),
        "Alice".into(),
        suggestion,
        vec![],
    );
    assert_eq!(string_of(model2.plain_text()), "hello Alice ");
    assert_eq!(model2.start, 12);
    assert_eq!(model2.end, 12);
}

#[test]
fn cursor_rests_before_following_text() {
    let mut model = text_model(" says hello", 0, 0);
    let update = model.replace_text("@ali".into());
    let MenuAction::Suggestion(suggestion) = update.menu_action else {
        panic!("No suggestion pattern found")
    };
    model.set_mention_from_suggestion(
        "https://example.org/u".into(),
        "Alice".into(),
        suggestion,
        vec![],
    );
    assert_eq!(string_of(model.plain_text()), "Alice says hello");
    assert_eq!(model.start, 5);
}

#[test]
fn document_length_accounting() {
    let mut model = text_model("hello @ali", 10, 10);
    let before = model.plain_text().len();
    model.set_mention_from_suggestion(
        "https://example.org/u".into(),
        "Alice".into(),
        wysiwyg::SuggestionPattern { start: 6, end: 10 },
        vec![],
    );
    let after = model.plain_text().len();
    assert_eq!(before, 10);
    assert_eq!(after, before - 4 + 5 + 1);
}

#[test]
fn replace_text_over_selection() {
    let mut model = text_model("abcdef", 1, 4);
    model.replace_text("X".into());
    assert_eq!(string_of(model.plain_text()), "aXef");
    assert_eq!(model.start, 2);
    assert_eq!(model.end, 2);
}

#[test]
fn reversed_selection_is_normalized() {
    let mut model = text_model("abcdef", 4, 1);
    model.replace_text("X".into());
    assert_eq!(string_of(model.plain_text()), "aXef");
    assert_eq!(model.start, 2);
}

#[test]
fn find_range_reports_leaf_descriptor() {
    let model = text_model("hello ", 3, 3);
    match model.find_range(3, 3) {
        DomRange::Leaf(leaf) => {
            assert_eq!(leaf.handle, vec![0usize]);
            assert_eq!(leaf.start_offset, 3);
            assert_eq!(leaf.length, 6);
        }
        _ => panic!("expected a leaf range"),
    }
}

#[test]
fn find_range_on_selection_and_empty() {
    let model = text_model("hello ", 1, 4);
    assert!(matches!(model.find_range(1, 4), DomRange::Selection));
    let empty = ComposerModel::new();
    assert!(matches!(empty.find_range(0, 0), DomRange::Empty));
}

#[test]
fn no_suggestion_without_trigger() {
    let mut model = text_model("hello ", 6, 6);
    let update = model.replace_text("plain".into());
    assert!(matches!(update.menu_action, MenuAction::Keep));
}

#[test]
fn mention_extra_attributes_are_kept() {
    let mut model = ComposerModel::new();
    let update = model.replace_text("@alic".into());
    let MenuAction::Suggestion(suggestion) = update.menu_action else {
        panic!("No suggestion pattern found")
    };
    model.set_mention_from_suggestion(
        "https://example.org/u".into(),
        "Alice".into(),
        suggestion,
        vec![("data-mention-type".into(), "user".into())],
    );
    match &model.children[0] {
        DomNode::Mention { attrs, .. } => {
            assert_eq!(attrs.len(), 1);
            assert_eq!(attrs[0].0, cv("data-mention-type"));
            assert_eq!(attrs[0].1, cv("user"));
        }
        _ => panic!("expected a mention"),
    }
}

#[test]
fn history_records_state_per_insertion() {
    let mut model = text_model("hello @ali", 10, 10);
    assert_eq!(model.history.len(), 0);
    model.set_mention_from_suggestion(
        "https://example.org/u".into(),
        "Alice".into(),
        wysiwyg::SuggestionPattern { start: 6, end: 10 },
        vec![],
    );
    assert_eq!(model.history.len(), 1);
    assert_eq!(string_of(model.history[0].text.clone()), "hello ");
    assert_eq!(model.history[0].start, 6);
}

#[test]
fn line_break_counts_one_position() {
    let model = ComposerModel {
        children: vec![DomNode::LineBreak, DomNode::Text { chars: cv("ab") }],
        start: 0,
        end: 0,
        history: Vec::new(),
    };
    assert_eq!(string_of(model.plain_text()), "\nab");
}

#[test]
fn update_describes_new_state() {
    let mut model = text_model("hello @ali", 10, 10);
    let update = model.set_mention_from_suggestion(
        "https://example.org/u".into(),
        "Alice".into(),
        wysiwyg::SuggestionPattern { start: 6, end: 10 },
        vec![],
    );
    match update.text_update {
        TextUpdate::ReplaceAll { replacement_text, start, end } => {
            assert_eq!(string_of(replacement_text), "hello Alice ");
            assert_eq!(start, 12);
            assert_eq!(end, 12);
        }
        _ => panic!("expected a replacement update"),
    }
}
