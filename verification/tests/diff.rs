use typdiff::diff::{coalesce_spans, diff, process_replace, tokenize_mixed};
use typdiff::{Block, BlockKind, DiffResult, DiffSpan, SpanTag};

#[test]
fn test_identical_blocks() {
    let blocks = vec![Block::Paragraph {
        source_text: "Hello world".into(),
    }];
    let results = diff(&blocks, &blocks);
    assert_eq!(results.len(), 1);
    assert!(matches!(&results[0], DiffResult::Unchanged(_)));
}

#[test]
fn test_added_block() {
    let old = vec![];
    let new = vec![Block::Paragraph {
        source_text: "New text".into(),
    }];
    let results = diff(&old, &new);
    assert_eq!(results.len(), 1);
    assert!(matches!(&results[0], DiffResult::Added(_)));
}

#[test]
fn test_deleted_block() {
    let old = vec![Block::Paragraph {
        source_text: "Old text".into(),
    }];
    let new = vec![];
    let results = diff(&old, &new);
    assert_eq!(results.len(), 1);
    assert!(matches!(&results[0], DiffResult::Deleted(_)));
}

#[test]
fn test_modified_paragraph() {
    let old = vec![Block::Paragraph {
        source_text: "This is old text".into(),
    }];
    let new = vec![Block::Paragraph {
        source_text: "This is new text".into(),
    }];
    let results = diff(&old, &new);
    assert_eq!(results.len(), 1);
    if let DiffResult::Modified { kind, spans } = &results[0] {
        assert_eq!(*kind, BlockKind::Paragraph);
        assert!(
            spans
                .iter()
                .any(|s| s.tag == SpanTag::Deleted && s.text.contains("old"))
        );
        assert!(
            spans
                .iter()
                .any(|s| s.tag == SpanTag::Inserted && s.text.contains("new"))
        );
    } else {
        panic!("expected Modified, got {:?}", results[0]);
    }
}

#[test]
fn test_atomic_blocks_not_modified() {
    let old = vec![Block::RawBlock {
        content: "```rust\nold code\n```".into(),
    }];
    let new = vec![Block::RawBlock {
        content: "```rust\nnew code\n```".into(),
    }];
    let results = diff(&old, &new);
    // Atomic blocks should stay as Delete + Insert, not Modified.
    assert!(results.iter().any(|r| matches!(r, DiffResult::Deleted(_))));
    assert!(results.iter().any(|r| matches!(r, DiffResult::Added(_))));
}

#[test]
fn test_similarity_matching_with_insertion() {
    // Old: [A, B]  New: [A', X, B'] where A'/B' are minor edits, X is new.
    // Positional pairing would pair A-A', B-X (wrong). Similarity should pair A-A', B-B'.
    let old = vec![
        Block::Paragraph {
            source_text: "The first paragraph about networks.".into(),
        },
        Block::Paragraph {
            source_text: "The second paragraph about routing.".into(),
        },
    ];
    let new = vec![
        Block::Paragraph {
            source_text: "The first paragraph about network systems.".into(),
        },
        Block::Paragraph {
            source_text: "A completely new paragraph about security.".into(),
        },
        Block::Paragraph {
            source_text: "The second paragraph about routing protocols.".into(),
        },
    ];

    let mut results = Vec::new();
    process_replace(&old, &new, &mut results);

    // Should produce: Modified(A→A'), Added(X), Modified(B→B')
    // Not: Modified(A→A'), Modified(B→X), Added(B')
    let modified_count = results
        .iter()
        .filter(|r| matches!(r, DiffResult::Modified { .. }))
        .count();
    let added_count = results
        .iter()
        .filter(|r| matches!(r, DiffResult::Added(_)))
        .count();
    assert_eq!(
        modified_count, 2,
        "expected 2 Modified, got results: {results:?}"
    );
    assert_eq!(added_count, 1, "expected 1 Added, got results: {results:?}");

    // The Modified blocks should contain word-level changes, not whole-block replacements.
    if let DiffResult::Modified { spans, .. } = &results[0] {
        assert!(
            spans.iter().any(|s| s.tag == SpanTag::Equal),
            "first Modified should have Equal spans (word-level diff)"
        );
    }
}

#[test]
fn test_similarity_matching_with_deletion() {
    // Old: [A, X, B]  New: [A', B'] — X was removed, A and B had minor edits.
    let old = vec![
        Block::Paragraph {
            source_text: "Introduction to the research topic.".into(),
        },
        Block::Paragraph {
            source_text: "This paragraph will be removed entirely.".into(),
        },
        Block::Paragraph {
            source_text: "Conclusion of the research topic.".into(),
        },
    ];
    let new = vec![
        Block::Paragraph {
            source_text: "Introduction to the research subject.".into(),
        },
        Block::Paragraph {
            source_text: "Conclusion of the research subject.".into(),
        },
    ];

    let mut results = Vec::new();
    process_replace(&old, &new, &mut results);

    let modified_count = results
        .iter()
        .filter(|r| matches!(r, DiffResult::Modified { .. }))
        .count();
    let deleted_count = results
        .iter()
        .filter(|r| matches!(r, DiffResult::Deleted(_)))
        .count();
    assert_eq!(
        modified_count, 2,
        "expected 2 Modified, got results: {results:?}"
    );
    assert_eq!(
        deleted_count, 1,
        "expected 1 Deleted, got results: {results:?}"
    );
}

#[test]
fn test_similarity_low_ratio_no_match() {
    // Two completely different paragraphs should not be matched (ratio < 0.5).
    let old = vec![Block::Paragraph {
        source_text: "AAAA BBBB CCCC DDDD".into(),
    }];
    let new = vec![Block::Paragraph {
        source_text: "XXXX YYYY ZZZZ WWWW".into(),
    }];

    let mut results = Vec::new();
    process_replace(&old, &new, &mut results);

    // With no similarity, should fall back to Deleted + Added.
    assert!(
        results.iter().any(|r| matches!(r, DiffResult::Deleted(_))),
        "expected Deleted"
    );
    assert!(
        results.iter().any(|r| matches!(r, DiffResult::Added(_))),
        "expected Added"
    );
    assert!(
        !results
            .iter()
            .any(|r| matches!(r, DiffResult::Modified { .. })),
        "should not produce Modified for dissimilar blocks"
    );
}

#[test]
fn test_similarity_different_kinds_not_paired() {
    // A Paragraph and a ListItem should not be paired even if text is similar.
    let old = vec![Block::Paragraph {
        source_text: "Some shared text here.".into(),
    }];
    let new = vec![Block::ListItem {
        body_text: "Some shared text here.".into(),
    }];

    let mut results = Vec::new();
    process_replace(&old, &new, &mut results);

    assert!(
        !results
            .iter()
            .any(|r| matches!(r, DiffResult::Modified { .. })),
        "different block kinds should not produce Modified"
    );
}

#[test]
fn test_tokenize_typst_funccall_atomic() {
    let tokens = tokenize_mixed("before #footnote[https://example.com] after");
    // #footnote[...] should be a single token
    assert!(
        tokens.iter().any(|t| t.starts_with("#footnote[")),
        "expected atomic #footnote[...] token, got: {tokens:?}"
    );
}

#[test]
fn test_tokenize_typst_ref_atomic() {
    let tokens = tokenize_mixed("see @my_ref_2024 for details");
    assert!(
        tokens.iter().any(|t| t == "@my_ref_2024"),
        "expected atomic @ref token, got: {tokens:?}"
    );
}

#[test]
fn test_tokenize_typst_label_atomic() {
    let tokens = tokenize_mixed("<sample-widget_anchor>");
    assert_eq!(tokens, vec!["<sample-widget_anchor>"]);
}

#[test]
fn test_tokenize_cjk_char_level() {
    // CJK characters should be tokenized individually (no whitespace boundaries).
    let tokens = tokenize_mixed("吾輩は猫である");
    assert_eq!(
        tokens,
        vec!["吾", "輩", "は", "猫", "で", "あ", "る"],
        "CJK characters should be individual tokens"
    );
}

#[test]
fn test_tokenize_cjk_mixed_with_ascii() {
    // Mixed CJK and ASCII: ASCII words stay grouped, CJK splits per character.
    let tokens = tokenize_mixed("HTTP通信の実装");
    assert_eq!(tokens, vec!["HTTP", "通", "信", "の", "実", "装"],);
}

#[test]
fn test_inline_footnote_produces_modified() {
    // Paragraph where @ref changed to #footnote[...] should produce Modified, not Delete+Add.
    // The paragraph must be long enough for the similarity ratio to exceed 0.5.
    let old = vec![Block::Paragraph {
        source_text: "This is a fairly long paragraph that discusses various topics in some detail. The key finding was reported by Smith et al. in their landmark study @smith_2024. Further research is needed to confirm these results across different settings and conditions.".into(),
    }];
    let new = vec![Block::Paragraph {
        source_text: "This is a fairly long paragraph that discusses various topics in some detail. The key finding was reported by Smith et al. in their landmark study #footnote[https://example.com/papers/smith2024.pdf accessed: 2025/01/15]. Further research is needed to confirm these results across different settings and conditions.".into(),
    }];

    let results = diff(&old, &new);
    assert!(
        results
            .iter()
            .any(|r| matches!(r, DiffResult::Modified { .. })),
        "expected Modified for inline footnote change, got: {results:?}"
    );
}

#[test]
fn test_cjk_word_diff_char_granularity() {
    // CJK text with a small change should produce character-level Modified, not whole-block Delete+Add.
    let old = vec![Block::Paragraph {
        source_text: "本手法では、入力データを前処理した後、特徴量を抽出する。抽出された特徴量に基づき分類を行う。".into(),
    }];
    let new = vec![Block::Paragraph {
        source_text: "本手法では、入力データを前処理した後、特徴ベクトルを抽出する。抽出された特徴ベクトルに基づき分類を行う。".into(),
    }];
    let results = diff(&old, &new);
    if let DiffResult::Modified { spans, .. } = &results[0] {
        assert!(
            spans.iter().any(|s| s.tag == SpanTag::Equal),
            "CJK diff should have Equal spans (character-level granularity), got: {spans:?}"
        );
        assert!(
            spans
                .iter()
                .any(|s| s.tag == SpanTag::Deleted && s.text.contains("量")),
            "should delete old CJK characters"
        );
        assert!(
            spans
                .iter()
                .any(|s| s.tag == SpanTag::Inserted && s.text.contains("ベクトル")),
            "should insert new CJK characters"
        );
    } else {
        panic!("expected Modified, got: {:?}", results[0]);
    }
}

#[test]
fn test_coalesce_spans() {
    let spans = vec![
        DiffSpan {
            tag: SpanTag::Equal,
            text: "a".into(),
        },
        DiffSpan {
            tag: SpanTag::Equal,
            text: "b".into(),
        },
        DiffSpan {
            tag: SpanTag::Deleted,
            text: "c".into(),
        },
    ];
    let result = coalesce_spans(spans);
    assert_eq!(result.len(), 2);
    assert_eq!(result[0].text, "ab");
    assert_eq!(result[1].text, "c");
}
