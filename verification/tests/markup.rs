use typdiff::diff_sources;
use typdiff::render::{escape_content, is_label_only, render, DiffTag, PREAMBLE};
use typdiff::{Block, BlockKind, DiffResult, DiffSpan, SpanTag};

fn p(s: &str) -> Block {
    Block::Paragraph {
        source_text: s.to_string(),
    }
}

fn span(tag: SpanTag, text: &str) -> DiffSpan {
    DiffSpan {
        tag,
        text: text.to_string(),
    }
}

/// The rendered document for one result.
fn one(r: DiffResult) -> String {
    render(&[r])
}

fn body(text: &str) -> String {
    format!("{PREAMBLE}\n{text}\n\n")
}

#[test]
fn markup_function_names() {
    assert_eq!(DiffTag::Added.func_name(), "diff-added");
    assert_eq!(DiffTag::Deleted.func_name(), "diff-deleted");
}

#[test]
fn render_starts_with_the_definitions() {
    assert_eq!(render(&[]), format!("{PREAMBLE}\n"));
    for results in [
        vec![DiffResult::Deleted(Block::Parbreak)],
        vec![DiffResult::Modified {
            kind: BlockKind::Atomic,
            spans: vec![],
        }],
        vec![DiffResult::Added(p("x")), DiffResult::Unchanged(p("y"))],
    ] {
        assert!(render(&results).starts_with(PREAMBLE));
    }
}

#[test]
fn unchanged_blocks_are_written_as_they_were() {
    let numbered = Block::EnumItem {
        number: Some(12),
        body_text: "twelve".into(),
    };
    assert_eq!(one(DiffResult::Unchanged(numbered)), body("12. twelve"));
    let auto = Block::EnumItem {
        number: None,
        body_text: "auto".into(),
    };
    assert_eq!(one(DiffResult::Unchanged(auto)), body("+ auto"));
    let term = Block::TermItem {
        term: "a".into(),
        description: "b".into(),
    };
    assert_eq!(one(DiffResult::Unchanged(term)), body("/ a: b"));
    let heading = Block::Heading {
        depth: 3,
        body_text: "Deep".into(),
    };
    assert_eq!(one(DiffResult::Unchanged(heading)), body("=== Deep"));
    assert_eq!(one(DiffResult::Unchanged(Block::Parbreak)), body(""));
}

#[test]
fn added_and_deleted_blocks_are_wrapped_after_their_prefix() {
    let heading = Block::Heading {
        depth: 2,
        body_text: "T".into(),
    };
    assert_eq!(one(DiffResult::Added(heading)), body("== #diff-added[T]"));
    let item = Block::EnumItem {
        number: Some(3),
        body_text: "x @r".into(),
    };
    assert_eq!(
        one(DiffResult::Deleted(item)),
        body("3. #diff-deleted[x \\@r]")
    );
    let li = Block::ListItem {
        body_text: "y".into(),
    };
    assert_eq!(one(DiffResult::Added(li)), body("- #diff-added[y]"));
    let term = Block::TermItem {
        term: "a]".into(),
        description: "<b>".into(),
    };
    assert_eq!(
        one(DiffResult::Deleted(term)),
        body("/ #diff-deleted[a\\]: \\<b>]")
    );
    let raw = Block::RawBlock {
        content: "```a]```".into(),
    };
    assert_eq!(one(DiffResult::Added(raw)), body("#diff-added[```a\\]```]"));
    let eq = Block::Equation {
        block: true,
        content: "$ x $".into(),
    };
    assert_eq!(one(DiffResult::Deleted(eq)), body("#diff-deleted[$ x $]"));
    assert_eq!(one(DiffResult::Added(Block::Parbreak)), body(""));
}

#[test]
fn code_blocks_are_kept_or_commented_out() {
    let code = Block::FuncCall {
        content: "#set text(size: 10pt)\n#let x = 1".into(),
    };
    assert_eq!(
        one(DiffResult::Added(code.clone())),
        body("#set text(size: 10pt)\n#let x = 1")
    );
    assert_eq!(
        one(DiffResult::Deleted(code)),
        body("// #set text(size: 10pt)\n// #let x = 1")
    );
    let crlf = Block::FuncCall {
        content: "#a\r\n#b\n".into(),
    };
    assert_eq!(one(DiffResult::Deleted(crlf)), body("// #a\n// #b"));
}

#[test]
fn labels_stay_outside_the_markup() {
    assert_eq!(one(DiffResult::Added(p("<lbl>"))), body("<lbl>"));
    assert_eq!(one(DiffResult::Deleted(p("<lbl>"))), body(""));
    assert_eq!(
        one(DiffResult::Added(p("<lbl> rest of it"))),
        body("<lbl> #diff-added[rest of it]")
    );
    assert_eq!(
        one(DiffResult::Deleted(p("<lbl>\nrest"))),
        body("#diff-deleted[\\<lbl>\nrest]")
    );
    assert_eq!(
        one(DiffResult::Added(p("<lbl>rest"))),
        body("#diff-added[<lbl>rest]")
    );
}

#[test]
fn modified_blocks_mark_each_span() {
    let r = DiffResult::Modified {
        kind: BlockKind::Heading { depth: 1 },
        spans: vec![
            span(SpanTag::Equal, ""),
            span(SpanTag::Deleted, "a"),
            span(SpanTag::Equal, " b"),
        ],
    };
    assert_eq!(one(r), body("= #diff-deleted[a] b"));
    let r = DiffResult::Modified {
        kind: BlockKind::EnumItem { number: None },
        spans: vec![span(SpanTag::Inserted, "x"), span(SpanTag::Equal, "(y)")],
    };
    assert_eq!(one(r), body("+ #diff-added[x]\u{200B}(y)"));
    let r = DiffResult::Modified {
        kind: BlockKind::ListItem,
        spans: vec![span(SpanTag::Deleted, "<old>"), span(SpanTag::Equal, "[z]")],
    };
    assert_eq!(one(r), body("- [z]"));
    let r = DiffResult::Modified {
        kind: BlockKind::TermItem,
        spans: vec![span(SpanTag::Inserted, " <new> "), span(SpanTag::Equal, "(w)")],
    };
    assert_eq!(one(r), body("/  <new> (w)"));
}

#[test]
fn escaping_rules() {
    assert_eq!(
        escape_content("#ref(<a>) @b <c>", true),
        "#ref(<a>) \\@b \\<c>"
    );
    assert_eq!(escape_content("#ref(<a>) @b", false), "#ref(<a>) @b");
    assert_eq!(escape_content("a [ b", false), "a [ b");
    assert_eq!(escape_content("]", false), "\\]");
    assert_eq!(escape_content("x\\\\\\", false), "x\\\\\\ ");
    assert_eq!(escape_content("a\\", true), "a\\ ");
    assert_eq!(escape_content("", true), "");
    assert_eq!(escape_content("#f[<a>] <b>", true), "#f[\\<a>] \\<b>");
}

#[test]
fn escaped_content_never_ends_in_an_odd_run_of_backslashes() {
    for s in ["\\", "\\\\", "a]\\", "@\\", "[\\]", "#f(\\", ""] {
        for refs in [false, true] {
            let e = escape_content(s, refs);
            let n = e.chars().rev().take_while(|&c| c == '\\').count();
            assert_eq!(n % 2, 0, "{s:?} gave {e:?}");
        }
    }
}

#[test]
fn label_only_text() {
    assert!(is_label_only("<a-b_c>"));
    assert!(is_label_only("<a>\n"));
    assert!(!is_label_only("<a> x"));
    assert!(!is_label_only("<>"));
}

#[test]
fn identical_sources_render_unchanged() {
    let src = "= Title\n\nHello world.\n";
    assert_eq!(diff_sources(src, src), body("= Title\n\nHello world."));
    assert_eq!(diff_sources("", ""), format!("{PREAMBLE}\n"));
}

#[test]
fn changed_word_in_a_paragraph() {
    assert_eq!(
        diff_sources("Hello world.\n", "Hello there.\n"),
        body("Hello #diff-deleted[world]#diff-added[there].")
    );
}

#[test]
fn added_and_removed_blocks_between_sources() {
    assert_eq!(
        diff_sources("= A\n", "= A\n\n- item\n"),
        body("= A\n\n- #diff-added[item]")
    );
    assert_eq!(
        diff_sources("#import \"x.typ\": y\n\nText.\n", "Text.\n"),
        body("// #import \"x.typ\": y\n\nText.")
    );
}

#[test]
fn rendering_is_made_of_chunks() {
    let a = vec![DiffResult::Added(p("x")), DiffResult::Unchanged(p("y"))];
    let b = vec![
        DiffResult::Deleted(Block::FuncCall {
            content: "#f()".into(),
        }),
        DiffResult::Modified {
            kind: BlockKind::Paragraph,
            spans: vec![span(SpanTag::Inserted, "z")],
        },
    ];
    let both: Vec<DiffResult> = a.iter().chain(b.iter()).cloned().collect();
    let rb = render(&b);
    assert_eq!(render(&both), render(&a) + &rb[PREAMBLE.len() + 1..]);
    for r in both {
        assert!(render(&[r]).ends_with("\n\n"));
    }
}

#[test]
fn rendering_is_made_of_chunks_even_after_empty_deleted_code() {
    let a = vec![DiffResult::Unchanged(p("y"))];
    let b = vec![
        DiffResult::Deleted(Block::FuncCall {
            content: "".into(),
        }),
        DiffResult::Added(p("z")),
    ];
    let both: Vec<DiffResult> = a.iter().chain(b.iter()).cloned().collect();
    let rb = render(&b);
    assert_eq!(render(&both), render(&a) + &rb[PREAMBLE.len() + 1..]);
    assert_eq!(render(&both), body("y\n\n\n#diff-added[z]"));
    let empty_code = DiffResult::Deleted(Block::FuncCall {
        content: "".into(),
    });
    assert_eq!(render(&[empty_code]), format!("{PREAMBLE}\n\n"));
}

#[test]
fn one_equal_span_prints_like_the_block() {
    let b = Block::Heading {
        depth: 2,
        body_text: "Title".into(),
    };
    let m = DiffResult::Modified {
        kind: b.kind(),
        spans: vec![span(SpanTag::Equal, "Title")],
    };
    assert_eq!(one(m), one(DiffResult::Unchanged(b)));
}

#[test]
fn all_equal_modification_prints_like_the_block() {
    let b = Block::TermItem {
        term: "t".into(),
        description: "d".into(),
    };
    let m = DiffResult::Modified {
        kind: BlockKind::TermItem,
        spans: vec![span(SpanTag::Equal, "t: "), span(SpanTag::Equal, "d")],
    };
    assert_eq!(one(m), one(DiffResult::Unchanged(b)));
}
