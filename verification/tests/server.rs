use sort_gitignore::server::{ActionKind, Backend};

const URI: &str = "file:///project/.gitignore";
const OTHER: &str = "file:///other/.gitignore";

#[test]
fn unopened_document_gets_no_answer() {
    let backend = Backend::new();
    assert!(backend.formatting_edits(URI).is_none());
    assert!(backend.code_action(URI).is_none());
}

#[test]
fn opened_document_is_formatted_by_its_text() {
    let mut backend = Backend::new();
    backend.did_open(URI.to_string(), "b\na\n".to_string());
    let edits = backend.formatting_edits(URI).expect("document is open");
    assert_eq!(edits.len(), 1);
    let edit = &edits[0];
    assert_eq!((edit.range.start.line, edit.range.start.character), (0, 0));
    assert_eq!((edit.range.end.line, edit.range.end.character), (2, 0));
    assert_eq!(edit.new_text, "a\nb\n");
}

#[test]
fn sorted_document_gets_no_answer() {
    let mut backend = Backend::new();
    backend.did_open(URI.to_string(), "a\nb\n".to_string());
    assert!(backend.formatting_edits(URI).is_none());
    assert!(backend.code_action(URI).is_none());
}

#[test]
fn end_position_without_final_newline() {
    let mut backend = Backend::new();
    backend.did_open(URI.to_string(), "b\na".to_string());
    let edits = backend.formatting_edits(URI).expect("document is open");
    assert_eq!((edits[0].range.end.line, edits[0].range.end.character), (1, 1));
    assert_eq!(edits[0].new_text, "a\nb");
}

#[test]
fn end_position_counts_bytes() {
    let mut backend = Backend::new();
    backend.did_open(URI.to_string(), "zz\nb\nää".to_string());
    let edits = backend.formatting_edits(URI).expect("document is open");
    assert_eq!((edits[0].range.end.line, edits[0].range.end.character), (2, 4));
    assert_eq!(edits[0].new_text, "b\nzz\nää");
}

#[test]
fn change_keeps_the_last_text() {
    let mut backend = Backend::new();
    backend.did_open(URI.to_string(), "a\nb\n".to_string());
    backend.did_change(URI.to_string(), vec!["x".to_string(), "d\nc\n".to_string()]);
    let edits = backend.formatting_edits(URI).expect("document is open");
    assert_eq!(edits[0].new_text, "c\nd\n");
    backend.did_change(URI.to_string(), vec![]);
    let edits = backend.formatting_edits(URI).expect("document is open");
    assert_eq!(edits[0].new_text, "c\nd\n");
}

#[test]
fn closed_document_is_forgotten() {
    let mut backend = Backend::new();
    backend.did_open(URI.to_string(), "b\na\n".to_string());
    backend.did_open(OTHER.to_string(), "d\nc\n".to_string());
    backend.did_close(URI);
    assert!(backend.formatting_edits(URI).is_none());
    let edits = backend.formatting_edits(OTHER).expect("other document stays open");
    assert_eq!(edits[0].new_text, "c\nd\n");
}

#[test]
fn reopening_replaces_the_text() {
    let mut backend = Backend::new();
    backend.did_open(URI.to_string(), "b\na\n".to_string());
    backend.did_open(URI.to_string(), "a\n".to_string());
    assert!(backend.formatting_edits(URI).is_none());
}

#[test]
fn code_action_offered_for_unsorted_document() {
    let mut backend = Backend::new();
    backend.did_open(URI.to_string(), "b\na\n".to_string());
    let action = backend.code_action(URI).expect("document is unsorted");
    assert_eq!(action.title, "Sort .gitignore");
    assert!(matches!(action.kind, ActionKind::SourceFixAll));
    assert!(action.is_preferred);
    assert_eq!(action.uri, URI);
    assert_eq!(action.edits.len(), 1);
    assert_eq!(action.edits[0].new_text, "a\nb\n");
}

#[test]
fn answer_follows_the_last_event_for_the_document() {
    let mut backend = Backend::new();
    backend.did_open(URI.to_string(), "b\na\n".to_string());
    backend.did_close(URI);
    backend.did_open(OTHER.to_string(), "d\nc\n".to_string());
    backend.did_change(OTHER.to_string(), vec!["f\ne\n".to_string()]);
    assert!(backend.formatting_edits(URI).is_none());
    backend.did_change(URI.to_string(), vec!["y\nx".to_string()]);
    let edits = backend.formatting_edits(URI).expect("a change sets the text");
    assert_eq!(edits[0].new_text, "x\ny");
    backend.did_change(URI.to_string(), vec!["x\ny".to_string()]);
    assert!(backend.formatting_edits(URI).is_none());
    assert_eq!(backend.formatting_edits(OTHER).expect("other is open")[0].new_text, "e\nf\n");
}
