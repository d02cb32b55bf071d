use typdiff::parse::{blocks_from_nodes, flush_paragraph, parse};
use typdiff::{drop_parbreaks, Block, BlockKind};

fn p(s: &str) -> Block {
    Block::Paragraph {
        source_text: s.to_string(),
    }
}

fn node(kind: &str, hash: bool, text: &str) -> (String, bool, String) {
    (kind.to_string(), hash, text.to_string())
}

#[test]
fn signature_of_each_kind() {
    assert_eq!(p("x").signature(), "P:x");
    let h = Block::Heading {
        depth: 2,
        body_text: "Intro".into(),
    };
    assert_eq!(h.signature(), "H2:Intro");
    let h = Block::Heading {
        depth: 1234,
        body_text: "x".into(),
    };
    assert_eq!(h.signature(), "H1234:x");
    let li = Block::ListItem {
        body_text: "item".into(),
    };
    assert_eq!(li.signature(), "LI:item");
    let auto = Block::EnumItem {
        number: None,
        body_text: "one".into(),
    };
    assert_eq!(auto.signature(), "EI?:one");
    let numbered = Block::EnumItem {
        number: Some(12),
        body_text: "one".into(),
    };
    assert_eq!(numbered.signature(), "EI12:one");
    let zero = Block::EnumItem {
        number: Some(0),
        body_text: "".into(),
    };
    assert_eq!(zero.signature(), "EI0:");
    let term = Block::TermItem {
        term: "a".into(),
        description: "b".into(),
    };
    assert_eq!(term.signature(), "TI:a:b");
    let raw = Block::RawBlock {
        content: "```x```".into(),
    };
    assert_eq!(raw.signature(), "RAW:```x```");
    let eq = Block::Equation {
        block: true,
        content: "$ x $".into(),
    };
    assert_eq!(eq.signature(), "EQtrue:$ x $");
    let eq = Block::Equation {
        block: false,
        content: "$x$".into(),
    };
    assert_eq!(eq.signature(), "EQfalse:$x$");
    let fc = Block::FuncCall {
        content: "#f()".into(),
    };
    assert_eq!(fc.signature(), "FC:#f()");
    assert_eq!(Block::Parbreak.signature(), "PB");
}

#[test]
fn kind_text_and_atomicity() {
    let term = Block::TermItem {
        term: "Term".into(),
        description: "what it means".into(),
    };
    assert_eq!(term.kind(), BlockKind::TermItem);
    assert_eq!(term.diff_text(), Some("Term: what it means".to_string()));
    assert!(!term.is_atomic());

    let h = Block::Heading {
        depth: 3,
        body_text: "T".into(),
    };
    assert_eq!(h.kind(), BlockKind::Heading { depth: 3 });
    assert_eq!(h.diff_text(), Some("T".to_string()));

    let e = Block::EnumItem {
        number: Some(4),
        body_text: "x".into(),
    };
    assert_eq!(e.kind(), BlockKind::EnumItem { number: Some(4) });

    for b in [
        Block::RawBlock {
            content: "r".into(),
        },
        Block::Equation {
            block: true,
            content: "e".into(),
        },
        Block::FuncCall {
            content: "f".into(),
        },
    ] {
        assert_eq!(b.kind(), BlockKind::Atomic);
        assert_eq!(b.diff_text(), None);
        assert!(b.is_atomic());
    }
    assert_eq!(Block::Parbreak.kind(), BlockKind::Parbreak);
    assert_eq!(Block::Parbreak.diff_text(), None);
    assert!(Block::Parbreak.is_atomic());
    assert!(!p("x").is_atomic());
    assert_eq!(p("x").duplicate(), p("x"));
}

#[test]
fn drop_parbreaks_keeps_other_blocks_in_order() {
    let blocks = vec![Block::Parbreak, p("a"), Block::Parbreak, p("b"), Block::Parbreak];
    assert_eq!(drop_parbreaks(blocks), vec![p("a"), p("b")]);
    assert_eq!(drop_parbreaks(vec![]), vec![]);
}

#[test]
fn comment_only_line_leaves_no_blank_line() {
    let nodes = vec![
        node("text", false, "First sentence."),
        node("space", false, "\n  "),
        node("space", false, "\n"),
        node("text", false, "Second sentence."),
    ];
    let blocks = blocks_from_nodes(&nodes, &vec![], &vec![]);
    assert_eq!(blocks, vec![p("First sentence.\nSecond sentence.")]);
}

#[test]
fn spaces_on_one_line_are_kept() {
    let nodes = vec![
        node("text", false, "a"),
        node("space", false, " "),
        node("space", false, "\n"),
        node("text", false, "b"),
    ];
    let blocks = blocks_from_nodes(&nodes, &vec![], &vec![]);
    assert_eq!(blocks, vec![p("a \nb")]);
}

#[test]
fn blocks_from_nodes_groups_elements() {
    let nodes = vec![
        node("heading", false, "= Title"),
        node("paragraph break", false, "\n\n"),
        node("paragraph break", false, "\n\n"),
        node("function call", true, "f()"),
        node("space", false, " "),
        node("text", false, "x"),
        node("function call", true, "g()"),
        node("enum item", false, "3. item"),
        node("term list item", false, "/ t: d"),
        node("raw block", false, "```r```"),
        node("raw block", false, "`i`"),
        node("equation", false, "$ e $"),
        node("list item", false, "- li"),
    ];
    let numbers = vec![
        (1, None, false),
        (0, None, false),
        (0, None, false),
        (0, None, false),
        (0, None, false),
        (0, None, false),
        (0, None, false),
        (0, Some(3), false),
        (0, None, false),
        (0, None, true),
        (0, None, false),
        (0, None, true),
        (0, None, false),
    ];
    let bodies: Vec<Vec<String>> = vec![
        vec!["Title".into()],
        vec![],
        vec![],
        vec![],
        vec![],
        vec![],
        vec![],
        vec![" item".into()],
        vec!["t".into(), " d".into()],
        vec![],
        vec![],
        vec![],
        vec!["li".into()],
    ];
    let blocks = blocks_from_nodes(&nodes, &numbers, &bodies);
    assert_eq!(
        blocks,
        vec![
            Block::Heading {
                depth: 1,
                body_text: "Title".into()
            },
            Block::Parbreak,
            Block::FuncCall {
                content: "#f()".into()
            },
            p("x#g()"),
            Block::EnumItem {
                number: Some(3),
                body_text: "item".into()
            },
            Block::TermItem {
                term: "t".into(),
                description: "d".into()
            },
            Block::RawBlock {
                content: "```r```".into()
            },
            p("`i`"),
            Block::Equation {
                block: true,
                content: "$ e $".into()
            },
            Block::ListItem {
                body_text: "li".into()
            },
        ]
    );
}

#[test]
fn unicode_whitespace_is_trimmed_from_paragraphs() {
    let nodes = vec![node("text", false, "\u{3000}abc\u{3000}")];
    let blocks = blocks_from_nodes(&nodes, &vec![], &vec![]);
    assert_eq!(blocks, vec![p("abc")]);
}

#[test]
fn flush_paragraph_trims_and_skips_blank() {
    let mut buf: Vec<char> = "  text \n".chars().collect();
    let mut blocks = vec![];
    flush_paragraph(&mut buf, &mut blocks);
    assert!(buf.is_empty());
    assert_eq!(blocks, vec![p("text")]);
    let mut blank: Vec<char> = " \n\t".chars().collect();
    flush_paragraph(&mut blank, &mut blocks);
    assert!(blank.is_empty());
    assert_eq!(blocks, vec![p("text")]);
}

#[test]
fn parse_never_yields_adjacent_breaks_or_untrimmed_paragraphs() {
    for source in [
        "a\n\n\n\nb\n",
        "= H\n\n\n\n\n\ntext  \n\n  more\n",
        "\n\n\n",
        "",
        "#set page(width: 10cm)\n\n- x\n\n\n+ y\n",
    ] {
        let blocks = parse(source);
        for w in blocks.windows(2) {
            assert!(!(w[0] == Block::Parbreak && w[1] == Block::Parbreak));
        }
        for b in &blocks {
            if let Block::Paragraph { source_text } = b {
                assert!(!source_text.is_empty());
                assert_eq!(source_text.trim(), source_text);
            }
        }
    }
}

#[test]
fn parse_reads_typst_structure() {
    let blocks = parse("== Sub\n\n3. third\n/ Term: desc\n```\ncode\n```\n");
    assert_eq!(
        blocks[0],
        Block::Heading {
            depth: 2,
            body_text: "Sub".into()
        }
    );
    assert!(blocks.contains(&Block::EnumItem {
        number: Some(3),
        body_text: "third".into()
    }));
    assert!(blocks.contains(&Block::TermItem {
        term: "Term".into(),
        description: "desc".into()
    }));
    assert!(blocks.contains(&Block::RawBlock {
        content: "```\ncode\n```".into()
    }));
}

#[test]
fn parse_keeps_code_outside_paragraphs_atomic() {
    let blocks = parse("#import \"x.typ\": y\n\nText #emph[here].\n");
    assert_eq!(
        blocks[0],
        Block::FuncCall {
            content: "#import \"x.typ\": y".into()
        }
    );
    assert_eq!(blocks.last(), Some(&p("Text #emph[here].")));
}

#[test]
fn different_blocks_have_different_signatures() {
    let blocks = vec![
        p("x"),
        Block::Heading {
            depth: 1,
            body_text: "x".into(),
        },
        Block::Heading {
            depth: 11,
            body_text: "x".into(),
        },
        Block::EnumItem {
            number: None,
            body_text: "x".into(),
        },
        Block::EnumItem {
            number: Some(1),
            body_text: "x".into(),
        },
        Block::TermItem {
            term: "a".into(),
            description: "b".into(),
        },
        Block::Equation {
            block: true,
            content: "x".into(),
        },
        Block::Equation {
            block: false,
            content: "x".into(),
        },
        Block::Parbreak,
    ];
    for (i, a) in blocks.iter().enumerate() {
        for (j, b) in blocks.iter().enumerate() {
            assert_eq!(i == j, a.signature() == b.signature());
        }
    }
}
