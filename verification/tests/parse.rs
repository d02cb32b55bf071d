use typdiff::parse::parse;
use typdiff::Block;

#[test]
fn test_parse_heading() {
    let blocks = parse("= Introduction\n");
    assert_eq!(blocks.len(), 1);
    assert!(
        matches!(&blocks[0], Block::Heading { depth: 1, body_text } if body_text == "Introduction")
    );
}

#[test]
fn test_parse_paragraph() {
    let blocks = parse("Hello world.\n");
    assert_eq!(blocks.len(), 1);
    assert!(
        matches!(&blocks[0], Block::Paragraph { source_text } if source_text == "Hello world.")
    );
}

#[test]
fn test_parse_heading_and_paragraph() {
    let blocks = parse("= Title\n\nSome text here.\n");
    assert!(blocks.len() >= 3);
    assert!(matches!(&blocks[0], Block::Heading { depth: 1, .. }));
    assert!(matches!(&blocks[1], Block::Parbreak));
    assert!(matches!(&blocks[2], Block::Paragraph { .. }));
}

#[test]
fn test_parse_list_items() {
    let blocks = parse("- First\n- Second\n");
    assert!(blocks.iter().any(|b| matches!(b, Block::ListItem { .. })));
}

#[test]
fn test_parse_enum_items() {
    let blocks = parse("+ One\n+ Two\n");
    assert!(blocks.iter().any(|b| matches!(b, Block::EnumItem { .. })));
}

#[test]
fn test_parse_inline_markup() {
    let blocks = parse("Hello *bold* and _italic_ text.\n");
    assert_eq!(blocks.len(), 1);
    if let Block::Paragraph { source_text } = &blocks[0] {
        assert!(source_text.contains("*bold*"));
        assert!(source_text.contains("_italic_"));
    } else {
        panic!("expected paragraph");
    }
}

#[test]
fn test_parse_inline_funccall() {
    // #footnote[...] mid-paragraph should stay inline, not split the paragraph.
    let blocks = parse("Some text before #footnote[https://example.com] and after.\n");
    assert_eq!(blocks.len(), 1, "expected 1 block, got: {blocks:?}");
    if let Block::Paragraph { source_text } = &blocks[0] {
        assert!(source_text.contains("#footnote["));
        assert!(source_text.contains("Some text before"));
        assert!(source_text.contains("and after."));
    } else {
        panic!("expected paragraph, got: {:?}", blocks[0]);
    }
}

#[test]
fn test_parse_markup_reference_split() {
    let text = "#[@foo]が段落の先頭にある場合、改行が挿入されないことを確認するテストです。\n";
    let blocks = parse(text);
    assert_eq!(blocks.len(), 1, "expected single paragraph block");
    if let Block::Paragraph { source_text } = &blocks[0] {
        assert!(source_text.starts_with("#[@foo]"));
    }
}

#[test]
fn test_parse_contentblock_various_positions() {
    for &case in &["#[foo]\n", "prefix #[foo] suffix\n", "#[foo]#[bar]\n"] {
        let blocks = parse(case);
        assert_eq!(blocks.len(), 1);
        if let Block::Paragraph { source_text } = &blocks[0] {
            assert!(source_text.contains("#[foo]"));
        }
    }
}
