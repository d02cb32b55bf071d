use typdiff::diff::{
    diff, process_replace, results_from_ops, similarity_from_ops, text_similarity, tokenize_mixed,
};
use typdiff::label::TypstLabel;
use typdiff::ops::EditOp;
use typdiff::tokens::skip_balanced;
use typdiff::words::{spans_from_ops, word_diff};
use typdiff::{Block, BlockKind, DiffResult, DiffSpan, SpanTag};

fn p(s: &str) -> Block {
    Block::Paragraph {
        source_text: s.to_string(),
    }
}

fn span(tag: SpanTag, text: &str) -> DiffSpan {
    DiffSpan {
        tag,
        text: text.to_string(),
    }
}

fn chars(s: &str) -> Vec<char> {
    s.chars().collect()
}

fn old_side(spans: &[DiffSpan]) -> String {
    spans
        .iter()
        .filter(|s| s.tag != SpanTag::Inserted)
        .map(|s| s.text.as_str())
        .collect()
}

fn new_side(spans: &[DiffSpan]) -> String {
    spans
        .iter()
        .filter(|s| s.tag != SpanTag::Deleted)
        .map(|s| s.text.as_str())
        .collect()
}

#[test]
fn tokens_spell_out_the_text() {
    for s in [
        "before #footnote[a [nested] b](x) after",
        "#f[a\\]b] tail",
        "#f[unclosed",
        "# not code, #1 neither",
        "@ref.x: y and @",
        "<a:b.c> <> <a b> <",
        "HTTP通信の実装 123abc",
        "",
    ] {
        let tokens = tokenize_mixed(s);
        assert_eq!(tokens.concat(), s);
        assert!(tokens.iter().all(|t| !t.is_empty()));
    }
}

#[test]
fn code_groups_are_single_tokens() {
    assert_eq!(
        tokenize_mixed("#f(x)[y] z"),
        vec!["#f(x)[y]", " ", "z"]
    );
    assert_eq!(tokenize_mixed("#f[a\\]b]x"), vec!["#f[a\\]b]", "x"]);
    assert_eq!(tokenize_mixed("#f[abc"), vec!["#f[abc"]);
    assert_eq!(tokenize_mixed("#1"), vec!["#", "1"]);
    assert_eq!(tokenize_mixed("@a-b_c:d.e!"), vec!["@a-b_c:d.e", "!"]);
    assert_eq!(tokenize_mixed("<a b>"), vec!["<", "a", " ", "b", ">"]);
    assert_eq!(tokenize_mixed("<日本>x"), vec!["<日本>", "x"]);
}

#[test]
fn skip_balanced_finds_the_closing_delimiter() {
    let s = chars("[a[b]c]rest");
    assert_eq!(skip_balanced(&s, 0, '[', ']'), 7);
    let s = chars("x(a\\)b)y");
    assert_eq!(skip_balanced(&s, 1, '(', ')'), 7);
    let s = chars("[never closed");
    assert_eq!(skip_balanced(&s, 0, '[', ']'), s.len());
    let s = chars("[trailing\\");
    assert_eq!(skip_balanced(&s, 0, '[', ']'), s.len());
    assert_eq!(skip_balanced(&chars("x[y]z"), 0, '[', ']'), 4);
    let s = chars("a]b[c]]d");
    assert_eq!(skip_balanced(&s, 0, '[', ']'), s.len());
    assert_eq!(skip_balanced(&chars("ab"), 5, '[', ']'), 5);
}

#[test]
fn labels_are_recognised() {
    assert_eq!(TypstLabel::end(&chars("<a:b.c>x"), 0), Some(7));
    assert_eq!(TypstLabel::end(&chars("x<a>"), 1), Some(4));
    assert_eq!(TypstLabel::end(&chars("<>"), 0), None);
    assert_eq!(TypstLabel::end(&chars("<a b>"), 0), None);
    assert_eq!(TypstLabel::end(&chars("<abc"), 0), None);
    assert_eq!(TypstLabel::end(&chars("a<b>"), 0), None);
    assert_eq!(TypstLabel::end(&chars("<a>"), 3), None);
    assert!(TypstLabel::is_only("<日本>"));
    assert!(TypstLabel::is_only("\n<x-y_z>\t"));
    assert!(!TypstLabel::is_only("<a+b>"));
    assert!(!TypstLabel::is_only(""));
    assert!(!TypstLabel::is_only("<a>."));
}

#[test]
fn word_diff_keeps_both_texts() {
    for (a, b) in [
        ("This is the old text.", "This is the new text."),
        ("", "all new"),
        ("all gone", ""),
        ("吾輩は猫である", "吾輩は犬である"),
        ("see @ref and #f[x]", "see #f[y] and @other"),
    ] {
        let spans = word_diff(a, b);
        assert_eq!(old_side(&spans), a);
        assert_eq!(new_side(&spans), b);
        for w in spans.windows(2) {
            assert_ne!(w[0].tag, w[1].tag);
        }
        assert!(spans.iter().all(|s| !s.text.is_empty()));
    }
}

#[test]
fn word_diff_of_equal_texts_is_one_equal_span() {
    assert_eq!(
        word_diff("Same words here.", "Same words here."),
        vec![span(SpanTag::Equal, "Same words here.")]
    );
    assert_eq!(word_diff("", ""), vec![]);
}

#[test]
fn word_diff_marks_the_changed_word() {
    assert_eq!(
        word_diff("Hello world.", "Hello there."),
        vec![
            span(SpanTag::Equal, "Hello "),
            span(SpanTag::Deleted, "world"),
            span(SpanTag::Inserted, "there"),
            span(SpanTag::Equal, "."),
        ]
    );
}

#[test]
fn spans_from_a_given_script() {
    let old: Vec<String> = vec!["a".into(), " ".into(), "b".into()];
    let new: Vec<String> = vec!["a".into(), " ".into(), "c".into(), "d".into()];
    let ops = vec![
        EditOp::Equal {
            old_index: 0,
            new_index: 0,
            len: 2,
        },
        EditOp::Replace {
            old_index: 2,
            old_len: 1,
            new_index: 2,
            new_len: 2,
        },
    ];
    assert_eq!(
        spans_from_ops(&old, &new, &ops),
        vec![
            span(SpanTag::Equal, "a "),
            span(SpanTag::Deleted, "b"),
            span(SpanTag::Inserted, "cd"),
        ]
    );
}

#[test]
fn similarity_counts_matching_characters() {
    assert_eq!(text_similarity("abc", "abd"), Some((2, 6)));
    assert_eq!(text_similarity("abc", "abc"), Some((3, 6)));
    assert_eq!(text_similarity("", ""), Some((0, 0)));
    assert_eq!(text_similarity("abcd", ""), Some((0, 4)));
    assert_eq!(text_similarity("猫です", "犬です"), Some((2, 6)));
}

#[test]
fn similarity_from_a_given_script() {
    let ops = vec![
        EditOp::Equal {
            old_index: 0,
            new_index: 0,
            len: 2,
        },
        EditOp::Replace {
            old_index: 2,
            old_len: 1,
            new_index: 2,
            new_len: 1,
        },
        EditOp::Equal {
            old_index: 3,
            new_index: 3,
            len: 4,
        },
    ];
    assert_eq!(similarity_from_ops(&ops, 7, 7), Some((6, 14)));
    let huge = vec![
        EditOp::Delete {
            old_index: 0,
            old_len: usize::MAX,
            new_index: 0,
        },
        EditOp::Insert {
            old_index: usize::MAX,
            new_index: 0,
            new_len: 1,
        },
    ];
    assert_eq!(similarity_from_ops(&huge, usize::MAX, 1), None);
}

#[test]
fn results_from_a_given_script() {
    let old = vec![p("a"), p("b"), p("same words here")];
    let new = vec![p("a"), p("c"), p("same words there")];
    let ops = vec![
        EditOp::Equal {
            old_index: 0,
            new_index: 0,
            len: 1,
        },
        EditOp::Delete {
            old_index: 1,
            old_len: 1,
            new_index: 1,
        },
        EditOp::Insert {
            old_index: 2,
            new_index: 1,
            new_len: 1,
        },
        EditOp::Replace {
            old_index: 2,
            old_len: 1,
            new_index: 2,
            new_len: 1,
        },
    ];
    assert_eq!(
        results_from_ops(&old, &new, &ops),
        vec![
            DiffResult::Unchanged(p("a")),
            DiffResult::Deleted(p("b")),
            DiffResult::Added(p("c")),
            DiffResult::Modified {
                kind: BlockKind::Paragraph,
                spans: vec![
                    span(SpanTag::Equal, "same words "),
                    span(SpanTag::Deleted, "here"),
                    span(SpanTag::Inserted, "there"),
                ],
            },
        ]
    );
}

#[test]
fn most_similar_pair_is_matched_first() {
    let old = vec![p("The cat sat on the mat.")];
    let new = vec![p("The cat sat on the hat."), p("The cat sat on the mat.")];
    let mut results = Vec::new();
    process_replace(&old, &new, &mut results);
    assert_eq!(
        results,
        vec![
            DiffResult::Added(p("The cat sat on the hat.")),
            DiffResult::Modified {
                kind: BlockKind::Paragraph,
                spans: vec![span(SpanTag::Equal, "The cat sat on the mat.")],
            },
        ]
    );
}

#[test]
fn equally_similar_pairs_keep_document_order() {
    let old = vec![p("abcd"), p("abce")];
    let new = vec![p("abcf")];
    let mut results = Vec::new();
    process_replace(&old, &new, &mut results);
    assert_eq!(
        results,
        vec![
            DiffResult::Deleted(p("abce")),
            DiffResult::Modified {
                kind: BlockKind::Paragraph,
                spans: vec![span(SpanTag::Deleted, "abcd"), span(SpanTag::Inserted, "abcf")],
            },
        ]
    );
}

#[test]
fn replace_appends_to_existing_results() {
    let mut results = vec![DiffResult::Unchanged(p("kept"))];
    process_replace(&[Block::Parbreak], &[], &mut results);
    assert_eq!(
        results,
        vec![
            DiffResult::Unchanged(p("kept")),
            DiffResult::Deleted(Block::Parbreak)
        ]
    );
}

#[test]
fn term_items_are_diffed_as_term_and_description() {
    let old = vec![Block::TermItem {
        term: "Alpha".into(),
        description: "first letter".into(),
    }];
    let new = vec![Block::TermItem {
        term: "Alpha".into(),
        description: "first Greek letter".into(),
    }];
    let results = diff(&old, &new);
    assert_eq!(
        results,
        vec![DiffResult::Modified {
            kind: BlockKind::TermItem,
            spans: vec![
                span(SpanTag::Equal, "Alpha: first "),
                span(SpanTag::Inserted, "Greek "),
                span(SpanTag::Equal, "letter"),
            ],
        }]
    );
}

#[test]
fn every_block_is_accounted_for() {
    let cases: Vec<(Vec<Block>, Vec<Block>)> = vec![
        (
            vec![p("A one"), p("B two"), p("C three")],
            vec![p("A one"), p("D four"), p("C three!")],
        ),
        (
            vec![
                Block::RawBlock {
                    content: "x".into(),
                },
                p("keep"),
            ],
            vec![
                Block::RawBlock {
                    content: "y".into(),
                },
                p("keep"),
                p("new"),
            ],
        ),
        (vec![], vec![p("only new")]),
        (vec![p("only old")], vec![]),
    ];
    for (old, new) in cases {
        let results = diff(&old, &new);
        let olds = results
            .iter()
            .filter(|r| !matches!(r, DiffResult::Added(_)))
            .count();
        let news = results
            .iter()
            .filter(|r| !matches!(r, DiffResult::Deleted(_)))
            .count();
        assert_eq!(olds, old.len());
        assert_eq!(news, new.len());
        for r in &results {
            if let DiffResult::Modified { kind, .. } = r {
                assert_ne!(*kind, BlockKind::Atomic);
                assert_ne!(*kind, BlockKind::Parbreak);
            }
        }
    }
}

#[test]
fn a_document_diffed_with_itself_is_unchanged() {
    let blocks = vec![
        p("x"),
        p("x"),
        Block::Heading {
            depth: 1,
            body_text: "x".into(),
        },
        Block::FuncCall {
            content: "#f()".into(),
        },
    ];
    let results = diff(&blocks, &blocks);
    let expected: Vec<DiffResult> = blocks.iter().cloned().map(DiffResult::Unchanged).collect();
    assert_eq!(results, expected);
}

#[test]
fn plain_text_tokens_are_maximal_words_or_single_characters() {
    for s in ["abc def, 123x!", "猫とHTTP2の", "  a  ", ""] {
        let tokens = tokenize_mixed(s);
        let is_word = |t: &str| !t.is_empty() && t.chars().all(|c| c.is_ascii_alphanumeric());
        for t in &tokens {
            assert!(is_word(t) || (t.chars().count() == 1 && !t.chars().all(|c| c.is_ascii_alphanumeric())));
        }
        for w in tokens.windows(2) {
            assert!(!(is_word(&w[0]) && is_word(&w[1])));
        }
    }
}

#[test]
fn coalescing_keeps_one_span_per_run() {
    let spans = vec![
        span(SpanTag::Equal, "a"),
        span(SpanTag::Equal, "b"),
        span(SpanTag::Inserted, "c"),
        span(SpanTag::Deleted, "d"),
        span(SpanTag::Deleted, "e"),
        span(SpanTag::Deleted, "f"),
        span(SpanTag::Equal, "g"),
    ];
    assert_eq!(
        typdiff::diff::coalesce_spans(spans),
        vec![
            span(SpanTag::Equal, "ab"),
            span(SpanTag::Inserted, "c"),
            span(SpanTag::Deleted, "def"),
            span(SpanTag::Equal, "g"),
        ]
    );
}

#[test]
fn diff_against_an_empty_document() {
    let blocks = vec![
        p("one"),
        Block::RawBlock {
            content: "r".into(),
        },
        p("one"),
    ];
    let added: Vec<DiffResult> = blocks.iter().cloned().map(DiffResult::Added).collect();
    let deleted: Vec<DiffResult> = blocks.iter().cloned().map(DiffResult::Deleted).collect();
    assert_eq!(diff(&[], &blocks), added);
    assert_eq!(diff(&blocks, &[]), deleted);
}

#[test]
fn each_new_block_has_its_result() {
    let old = vec![p("alpha beta gamma"), p("gone entirely"), p("kept")];
    let new = vec![p("alpha beta delta"), p("kept"), p("brand new")];
    let results = diff(&old, &new);
    let kept: Vec<&DiffResult> = results
        .iter()
        .filter(|r| !matches!(r, DiffResult::Deleted(_)))
        .collect();
    assert_eq!(kept.len(), new.len());
    for (r, b) in kept.iter().zip(&new) {
        match r {
            DiffResult::Unchanged(x) | DiffResult::Added(x) => assert_eq!(x, b),
            DiffResult::Modified { kind, spans } => {
                assert_eq!(*kind, b.kind());
                let text: String = spans
                    .iter()
                    .filter(|s| s.tag != SpanTag::Deleted)
                    .map(|s| s.text.as_str())
                    .collect();
                assert_eq!(Some(text), b.diff_text());
            }
            DiffResult::Deleted(_) => unreachable!(),
        }
    }
}
