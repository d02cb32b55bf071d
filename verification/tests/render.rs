use typdiff::render::{escape_content, is_label_only, render};
use typdiff::{Block, BlockKind, DiffResult, DiffSpan, SpanTag};

#[test]
fn test_escape_content_no_special() {
    assert_eq!(escape_content("hello world", false), "hello world");
}

#[test]
fn test_escape_content_balanced_brackets() {
    assert_eq!(escape_content("a [b] c", false), "a [b] c");
}

#[test]
fn test_escape_content_unbalanced_bracket() {
    assert_eq!(escape_content("a ] b", false), "a \\] b");
}

#[test]
fn test_escape_content_trailing_backslash() {
    assert_eq!(escape_content("text\\", false), "text\\ ");
}

#[test]
fn test_escape_content_trailing_double_backslash() {
    assert_eq!(escape_content("text\\\\", false), "text\\\\");
}

#[test]
fn test_escape_content_refs_not_escaped_by_default() {
    assert_eq!(escape_content("see @ref here", false), "see @ref here");
}

#[test]
fn test_escape_content_refs_escaped_when_requested() {
    assert_eq!(escape_content("see @ref here", true), "see \\@ref here");
}

#[test]
fn test_escape_content_labels_escaped_when_requested() {
    assert_eq!(escape_content("text <my-label>", true), "text \\<my-label>");
}

#[test]
fn test_is_label_only() {
    assert!(is_label_only("<my-label>"));
    assert!(is_label_only("  <my-label>  "));
    assert!(!is_label_only("text <label>"));
    assert!(!is_label_only("<a> <b>"));
    assert!(!is_label_only("no label"));
}

#[test]
fn test_render_preamble() {
    let output = render(&[]);
    assert!(output.contains("#let diff-added"));
    assert!(output.contains("#let diff-deleted"));
}

#[test]
fn test_render_unchanged() {
    let results = vec![DiffResult::Unchanged(Block::Paragraph {
        source_text: "Hello".into(),
    })];
    let output = render(&results);
    assert!(output.contains("\nHello\n"));
    let body = output.split("\n\n").last().unwrap();
    assert!(!body.contains("#diff-added["));
    assert!(!body.contains("#diff-deleted["));
}

#[test]
fn test_render_added_paragraph() {
    let results = vec![DiffResult::Added(Block::Paragraph {
        source_text: "New text".into(),
    })];
    let output = render(&results);
    assert!(output.contains("#diff-added[New text]"));
}

#[test]
fn test_render_deleted_paragraph_escapes_refs() {
    let results = vec![DiffResult::Deleted(Block::Paragraph {
        source_text: "see @old-ref here".into(),
    })];
    let output = render(&results);
    assert!(output.contains("#diff-deleted[see \\@old-ref here]"));
}

#[test]
fn test_render_label_only_paragraph_not_wrapped() {
    let results = vec![DiffResult::Added(Block::Paragraph {
        source_text: "<my-label>".into(),
    })];
    let output = render(&results);
    assert!(output.contains("<my-label>"));
    assert!(!output.contains("#diff-added[<my-label>]"));
}

#[test]
fn test_render_modified() {
    let results = vec![DiffResult::Modified {
        kind: BlockKind::Paragraph,
        spans: vec![
            DiffSpan {
                tag: SpanTag::Equal,
                text: "Hello ".into(),
            },
            DiffSpan {
                tag: SpanTag::Deleted,
                text: "world".into(),
            },
            DiffSpan {
                tag: SpanTag::Inserted,
                text: "there".into(),
            },
        ],
    }];
    let output = render(&results);
    assert!(output.contains("Hello #diff-deleted[world]#diff-added[there]"));
}

#[test]
fn test_render_modified_label_bare() {
    let results = vec![DiffResult::Modified {
        kind: BlockKind::Paragraph,
        spans: vec![
            DiffSpan {
                tag: SpanTag::Deleted,
                text: "<old-label>".into(),
            },
            DiffSpan {
                tag: SpanTag::Inserted,
                text: "<new-label>".into(),
            },
        ],
    }];
    let output = render(&results);
    assert!(output.contains("<new-label>"));
    assert!(!output.contains("#diff-added[<new-label>]"));
    assert!(!output.contains("#diff-deleted[\\<old-label>]"));
}
