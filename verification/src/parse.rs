//! Splitting a Typst document into block-level elements.
//!
//! typst-syntax parses the source; the top-level markup expressions are then
//! read as plain values (kind name, `#` flag, source text, numbers, bodies)
//! and grouped into blocks here.

use vstd::prelude::*;
use typst_syntax::ast;
use typst_syntax::ast::{AstNode, Expr};
use crate::{Block, BlockModel, block_model, blocks_model};
use crate::text::{skip_white, lemma_skip_white_bounds, skip_white_back, lemma_skip_white_back_bounds, find_non_white_back, trim, trim_start, trim_chars, trim_start_chars, to_chars, push_chars, push_str, string_from_chars};

verus! {

/// A top-level markup expression: the name of its syntax kind, whether it
/// is written with a leading `#` in markup, and its source text.
pub type NodeModel = (Seq<char>, bool, Seq<char>);

/// Numbers of a top-level expression: heading depth (0 if not a heading),
/// enum item number, and whether a raw text or equation is a block.
pub type NodeNumbers = (usize, Option<u64>, bool);

/// The top-level markup expressions that typst-syntax parses from `source`:
/// for each, the name of its syntax kind, its `hash()` flag and its full text.
pub uninterp spec fn typst_markup_nodes(source: Seq<char>) -> Seq<NodeModel>;

/// For the top-level markup expressions of `source`: heading depth, enum
/// number and block flag, as typst-syntax's AST accessors give them.
pub uninterp spec fn typst_markup_numbers(source: Seq<char>) -> Seq<NodeNumbers>;

/// For the top-level markup expressions of `source`: the full texts of their
/// markup bodies (heading, list item and enum item body; term and
/// description of a term item; none for other expressions).
pub uninterp spec fn typst_markup_bodies(source: Seq<char>) -> Seq<Seq<Seq<char>>>;

pub open spec fn nodes_view(v: Seq<(String, bool, String)>) -> Seq<NodeModel> {
    v.map_values(|n: (String, bool, String)| (n.0@, n.1, n.2@))
}

pub open spec fn bodies_view(v: Seq<Vec<String>>) -> Seq<Seq<Seq<char>>> {
    v.map_values(|b: Vec<String>| crate::ops::strings_view(b@))
}

/// Calls `typst_syntax::parse`, casts the root to `ast::Markup` and, for each
/// of `exprs()`, returns the name of its syntax kind (`SyntaxKind::name`), its
/// `Expr::hash()` flag and its `SyntaxNode::full_text()`. The contract claims
/// only that the result depends on the source alone. The cast cannot fail:
/// `parse` always returns a node of kind `Markup`.
#[verifier::external_body]
pub(crate) fn markup_nodes(source: &str) -> (nodes: Vec<(String, bool, String)>)
    ensures
        nodes_view(nodes@) == typst_markup_nodes(source@),
{
    let root = typst_syntax::parse(source);
    let markup: ast::Markup = root.cast().expect("failed to parse as markup");
    markup.exprs().map(|e| {
        let node = e.to_untyped();
        (node.kind().name().to_string(), e.hash(), node.full_text().to_string())
    }).collect()
}

/// Calls `typst_syntax::parse` and reads, for each top-level expression,
/// `Heading::depth`, `EnumItem::number` and `Raw::block`/`Equation::block`.
/// The contract claims only that the result depends on the source alone.
#[verifier::external_body]
pub(crate) fn markup_numbers(source: &str) -> (numbers: Vec<(usize, Option<u64>, bool)>)
    ensures
        numbers@ == typst_markup_numbers(source@),
{
    let root = typst_syntax::parse(source);
    let markup: ast::Markup = root.cast().expect("failed to parse as markup");
    markup.exprs().map(|e| match e {
        Expr::Heading(h) => (h.depth().get(), None, false),
        Expr::EnumItem(i) => (0, i.number(), false),
        Expr::Raw(r) => (0, None, r.block()),
        Expr::Equation(q) => (0, None, q.block()),
        _ => (0, None, false),
    }).collect()
}

/// Calls `typst_syntax::parse` and returns, for each top-level expression,
/// the full texts of its markup bodies (`Heading::body`, `ListItem::body`,
/// `EnumItem::body`, `TermItem::term` and `TermItem::description`). The
/// contract claims only that the result depends on the source alone.
#[verifier::external_body]
pub(crate) fn markup_bodies(source: &str) -> (bodies: Vec<Vec<String>>)
    ensures
        bodies_view(bodies@) == typst_markup_bodies(source@),
{
    let root = typst_syntax::parse(source);
    let markup: ast::Markup = root.cast().expect("failed to parse as markup");
    let text = |m: ast::Markup| m.to_untyped().full_text().to_string();
    markup.exprs().map(|e| match e {
        Expr::Heading(h) => vec![text(h.body())],
        Expr::ListItem(i) => vec![text(i.body())],
        Expr::EnumItem(i) => vec![text(i.body())],
        Expr::TermItem(i) => vec![text(i.term()), text(i.description())],
        _ => Vec::new(),
    }).collect()
}

/// Kinds of inline expressions that extend the current paragraph.
pub open spec fn inline_kind(name: Seq<char>) -> bool {
    ||| name == "text"@
    ||| name == "line break"@
    ||| name == "escape sequence"@
    ||| name == "shorthand"@
    ||| name == "smart quote"@
    ||| name == "strong content"@
    ||| name == "emphasized content"@
    ||| name == "link"@
    ||| name == "label"@
    ||| name == "reference"@
    ||| name == "raw block"@
    ||| name == "equation"@
    ||| name == "content block"@
}

/// The source text of an expression as it stands in markup: code
/// expressions get back the `#` that their syntax node does not include.
pub open spec fn node_text(hash: bool, text: Seq<char>) -> Seq<char> {
    if hash {
        seq!['#'] + text
    } else {
        text
    }
}

/// The trailing whitespace of `buf` contains a line break.
pub open spec fn ends_with_line_break(buf: Seq<char>) -> bool {
    exists|k: int| skip_white_back(buf, buf.len() as int) <= k < buf.len() && buf[k] == '\n'
}

/// Appends a space expression to the paragraph buffer. When a space that
/// breaks the line follows whitespace that already broke the line (a line
/// that held only a comment lies between them), the earlier whitespace gives
/// way, so that no whitespace-only line, which Typst reads as a paragraph
/// break, is left.
pub open spec fn append_space(buf: Seq<char>, space: Seq<char>) -> Seq<char> {
    if space.contains('\n') && ends_with_line_break(buf) {
        buf.subrange(0, skip_white_back(buf, buf.len() as int)) + space
    } else {
        buf + space
    }
}

/// The blocks after flushing the paragraph buffer: its trimmed text becomes
/// a paragraph unless it is empty.
pub open spec fn flush(blocks: Seq<BlockModel>, buf: Seq<char>) -> Seq<BlockModel> {
    if trim(buf).len() > 0 {
        blocks.push(BlockModel::Paragraph(trim(buf)))
    } else {
        blocks
    }
}

pub open spec fn body_at(bodies: Seq<Seq<char>>, k: int) -> Seq<char> {
    if 0 <= k < bodies.len() {
        bodies[k]
    } else {
        Seq::empty()
    }
}

/// Parser state: the blocks so far and the paragraph being accumulated.
pub type ParseState = (Seq<BlockModel>, Seq<char>);

/// One top-level expression read into the state.
pub open spec fn parse_step(st: ParseState, node: NodeModel, numbers: NodeNumbers, bodies: Seq<Seq<char>>) -> ParseState {
    let (blocks, buf) = st;
    let (name, hash, raw_text) = node;
    let text = node_text(hash, raw_text);
    if name == "heading"@ {
        (flush(blocks, buf).push(BlockModel::Heading(numbers.0, trim_start(body_at(bodies, 0)))), Seq::empty())
    } else if name == "list item"@ {
        (flush(blocks, buf).push(BlockModel::ListItem(trim_start(body_at(bodies, 0)))), Seq::empty())
    } else if name == "enum item"@ {
        let number = match numbers.1 {
            Some(n) => Some(n as usize),
            None => None,
        };
        (flush(blocks, buf).push(BlockModel::EnumItem(number, trim_start(body_at(bodies, 0)))), Seq::empty())
    } else if name == "term list item"@ {
        (
            flush(blocks, buf).push(
                BlockModel::TermItem(trim_start(body_at(bodies, 0)), trim_start(body_at(bodies, 1))),
            ),
            Seq::empty(),
        )
    } else if name == "paragraph break"@ {
        let b = flush(blocks, buf);
        // Consecutive paragraph breaks collapse into one.
        (if b.len() > 0 && b.last() is Parbreak {
            b
        } else {
            b.push(BlockModel::Parbreak)
        }, Seq::empty())
    } else if name == "raw block"@ && numbers.2 {
        (flush(blocks, buf).push(BlockModel::RawBlock(text)), Seq::empty())
    } else if name == "equation"@ && numbers.2 {
        (flush(blocks, buf).push(BlockModel::Equation(true, text)), Seq::empty())
    } else if name == "space"@ {
        (blocks, append_space(buf, text))
    } else if inline_kind(name) {
        (blocks, buf + text)
    } else if trim(buf).len() == 0 {
        // Outside a paragraph, any other expression is an atomic block.
        (flush(blocks, buf).push(BlockModel::FuncCall(text)), Seq::empty())
    } else {
        // Inside a paragraph it stays inline.
        (blocks, buf + text)
    }
}

pub open spec fn numbers_at(numbers: Seq<NodeNumbers>, k: int) -> NodeNumbers {
    if 0 <= k < numbers.len() {
        numbers[k]
    } else {
        (0, None, false)
    }
}

pub open spec fn bodies_at(bodies: Seq<Seq<Seq<char>>>, k: int) -> Seq<Seq<char>> {
    if 0 <= k < bodies.len() {
        bodies[k]
    } else {
        Seq::empty()
    }
}

/// The state after the first `k` expressions.
pub open spec fn parse_upto(
    nodes: Seq<NodeModel>,
    numbers: Seq<NodeNumbers>,
    bodies: Seq<Seq<Seq<char>>>,
    k: int,
) -> ParseState
    decreases k,
{
    if k <= 0 {
        (Seq::empty(), Seq::empty())
    } else {
        parse_step(
            parse_upto(nodes, numbers, bodies, k - 1),
            nodes[k - 1],
            numbers_at(numbers, k - 1),
            bodies_at(bodies, k - 1),
        )
    }
}

/// The blocks of a document given by its top-level expressions.
pub open spec fn spec_blocks(nodes: Seq<NodeModel>, numbers: Seq<NodeNumbers>, bodies: Seq<Seq<Seq<char>>>) -> Seq<BlockModel> {
    let (blocks, buf) = parse_upto(nodes, numbers, bodies, nodes.len() as int);
    flush(blocks, buf)
}

/// The blocks of a Typst source.
pub open spec fn spec_parse(source: Seq<char>) -> Seq<BlockModel> {
    spec_blocks(typst_markup_nodes(source), typst_markup_numbers(source), typst_markup_bodies(source))
}

// ---------------------------------------------------------------------------
// Code.

/// Whether `v` spells `lit`.
fn chars_eq(v: &Vec<char>, lit: &str) -> (r: bool)
    ensures
        r == (v@ == lit@),
{
    let l = to_chars(lit);
    if v.len() != l.len() {
        return false;
    }
    let n = v.len();
    let mut i: usize = 0;
    while i < n
        invariant
            n == v@.len(),
            n == l@.len(),
            l@ == lit@,
            i <= n,
            forall|k: int| 0 <= k < i ==> v@[k] == l@[k],
        decreases n - i,
    {
        if v[i] != l[i] {
            return false;
        }
        i = i + 1;
    }
    assert(v@ =~= l@);
    true
}

fn is_inline_kind(name: &Vec<char>) -> (r: bool)
    ensures
        r == inline_kind(name@),
{
    chars_eq(name, "text") || chars_eq(name, "line break") || chars_eq(name, "escape sequence")
        || chars_eq(name, "shorthand") || chars_eq(name, "smart quote") || chars_eq(name, "strong content")
        || chars_eq(name, "emphasized content") || chars_eq(name, "link") || chars_eq(name, "label")
        || chars_eq(name, "reference") || chars_eq(name, "raw block") || chars_eq(name, "equation")
        || chars_eq(name, "content block")
}

/// Whether the trailing whitespace of `buf` holds a line break; also returns
/// where that whitespace starts.
fn trailing_line_break(buf: &Vec<char>) -> (r: (bool, usize))
    ensures
        r.0 == ends_with_line_break(buf@),
        r.1 == skip_white_back(buf@, buf@.len() as int),
{
    let n = buf.len();
    let start = find_non_white_back(buf, n);
    proof {
        lemma_skip_white_back_bounds(buf@, n as int);
    }
    let mut k = start;
    while k < n
        invariant
            n == buf@.len(),
            start <= k <= n,
            start == skip_white_back(buf@, n as int),
            forall|j: int| start <= j < k ==> buf@[j] != '\n',
        decreases n - k,
    {
        if buf[k] == '\n' {
            return (true, start);
        }
        k = k + 1;
    }
    (false, start)
}

fn contains_line_break(s: &Vec<char>) -> (r: bool)
    ensures
        r == s@.contains('\n'),
{
    let n = s.len();
    let mut k: usize = 0;
    while k < n
        invariant
            n == s@.len(),
            k <= n,
            forall|j: int| 0 <= j < k ==> s@[j] != '\n',
        decreases n - k,
    {
        if s[k] == '\n' {
            return true;
        }
        k = k + 1;
    }
    false
}

/// Flush the paragraph buffer into blocks if non-empty.
pub fn flush_paragraph(buf: &mut Vec<char>, blocks: &mut Vec<Block>)
    ensures
        blocks_model(final(blocks)@) == flush(blocks_model(old(blocks)@), old(buf)@),
        final(buf)@ == Seq::<char>::empty(),
{
    let trimmed = trim_chars(buf);
    let ghost before = blocks@;
    if trimmed.len() > 0 {
        let b = Block::Paragraph { source_text: string_from_chars(&trimmed) };
        blocks.push(b);
        assert(blocks@ =~= before.push(b));
        assert(blocks_model(blocks@) =~= blocks_model(before).push(block_model(b)));
    }
    assert(blocks_model(blocks@) =~= flush(blocks_model(before), buf@));
    buf.clear();
}

/// Pushes `b` after flushing the paragraph buffer.
fn flush_and_push(buf: &mut Vec<char>, blocks: &mut Vec<Block>, b: Block)
    ensures
        blocks_model(final(blocks)@) == flush(blocks_model(old(blocks)@), old(buf)@).push(block_model(b)),
        final(buf)@ == Seq::<char>::empty(),
{
    flush_paragraph(buf, blocks);
    let ghost before = blocks@;
    blocks.push(b);
    assert(blocks@ =~= before.push(b));
    assert(blocks_model(blocks@) =~= blocks_model(before).push(block_model(b)));
}

fn body_text(bodies: &Vec<String>, k: usize) -> (r: String)
    ensures
        r@ == trim_start(body_at(crate::ops::strings_view(bodies@), k as int)),
{
    if k < bodies.len() {
        let chars = to_chars(bodies[k].as_str());
        string_from_chars(&trim_start_chars(&chars))
    } else {
        let empty: Vec<char> = Vec::new();
        proof {
            assert(trim_start(Seq::<char>::empty()) =~= Seq::<char>::empty());
        }
        string_from_chars(&empty)
    }
}

/// Groups top-level markup expressions into blocks.
pub fn blocks_from_nodes(
    nodes: &Vec<(String, bool, String)>,
    numbers: &Vec<(usize, Option<u64>, bool)>,
    bodies: &Vec<Vec<String>>,
) -> (blocks: Vec<Block>)
    ensures
        blocks_model(blocks@) == spec_blocks(nodes_view(nodes@), numbers@, bodies_view(bodies@)),
{
    let ghost nv = nodes_view(nodes@);
    let ghost bv = bodies_view(bodies@);
    let mut blocks: Vec<Block> = Vec::new();
    let mut buf: Vec<char> = Vec::new();
    let n = nodes.len();
    let mut k: usize = 0;
    while k < n
        invariant
            n == nodes@.len(),
            nv == nodes_view(nodes@),
            bv == bodies_view(bodies@),
            k <= n,
            (blocks_model(blocks@), buf@) == parse_upto(nv, numbers@, bv, k as int),
        decreases n - k,
    {
        let (name_s, hash, raw_s) = &nodes[k];
        let name = to_chars(name_s.as_str());
        let mut text: Vec<char> = Vec::new();
        if *hash {
            text.push('#');
        }
        push_str(&mut text, raw_s.as_str());
        assert(text@ =~= node_text(*hash, raw_s@));
        let nums: (usize, Option<u64>, bool) = if k < numbers.len() {
            numbers[k]
        } else {
            (0, None, false)
        };
        let empty_bodies: Vec<String> = Vec::new();
        let bs: &Vec<String> = if k < bodies.len() {
            &bodies[k]
        } else {
            &empty_bodies
        };
        proof {
            assert(nv[k as int] == (name@, *hash, raw_s@));
            assert(crate::ops::strings_view(bs@) =~= bodies_at(bv, k as int));
        }
        let ghost st = (blocks_model(blocks@), buf@);
        if chars_eq(&name, "heading") {
            flush_and_push(&mut buf, &mut blocks, Block::Heading { depth: nums.0, body_text: body_text(bs, 0) });
        } else if chars_eq(&name, "list item") {
            flush_and_push(&mut buf, &mut blocks, Block::ListItem { body_text: body_text(bs, 0) });
        } else if chars_eq(&name, "enum item") {
            let number: Option<usize> = match nums.1 {
                Some(x) => Some(x as usize),
                None => None,
            };
            flush_and_push(&mut buf, &mut blocks, Block::EnumItem { number, body_text: body_text(bs, 0) });
        } else if chars_eq(&name, "term list item") {
            let term = body_text(bs, 0);
            let description = body_text(bs, 1);
            flush_and_push(&mut buf, &mut blocks, Block::TermItem { term, description });
        } else if chars_eq(&name, "paragraph break") {
            flush_paragraph(&mut buf, &mut blocks);
            let len = blocks.len();
            let last_is_break = len > 0 && match &blocks[len - 1] {
                Block::Parbreak => true,
                _ => false,
            };
            if !last_is_break {
                let ghost before = blocks@;
                blocks.push(Block::Parbreak);
                assert(blocks@ =~= before.push(Block::Parbreak));
                assert(blocks_model(blocks@) =~= blocks_model(before).push(BlockModel::Parbreak));
            } else {
                assert(blocks_model(blocks@).last() is Parbreak);
            }
        } else if chars_eq(&name, "raw block") && nums.2 {
            flush_and_push(&mut buf, &mut blocks, Block::RawBlock { content: string_from_chars(&text) });
        } else if chars_eq(&name, "equation") && nums.2 {
            flush_and_push(&mut buf, &mut blocks, Block::Equation { block: true, content: string_from_chars(&text) });
        } else if chars_eq(&name, "space") {
            let (breaks, start) = trailing_line_break(&buf);
            if contains_line_break(&text) && breaks {
                proof {
                    lemma_skip_white_back_bounds(buf@, buf@.len() as int);
                }
                buf.truncate(start);
            }
            push_chars(&mut buf, &text);
            assert(buf@ =~= append_space(st.1, text@));
        } else if is_inline_kind(&name) {
            push_chars(&mut buf, &text);
        } else {
            let trimmed = trim_chars(&buf);
            if trimmed.len() == 0 {
                flush_and_push(&mut buf, &mut blocks, Block::FuncCall { content: string_from_chars(&text) });
            } else {
                push_chars(&mut buf, &text);
            }
        }
        assert((blocks_model(blocks@), buf@) == parse_step(st, nv[k as int], numbers_at(numbers@, k as int), bodies_at(bv, k as int)));
        k = k + 1;
    }
    flush_paragraph(&mut buf, &mut blocks);
    blocks
}

/// Parse a Typst source string into a sequence of blocks.
pub fn parse(source: &str) -> (blocks: Vec<Block>)
    ensures
        blocks_model(blocks@) == spec_parse(source@),
        // No two paragraph breaks or paragraphs in a row; no empty or
        // untrimmed paragraph; bodies start without whitespace.
        well_formed_blocks(blocks_model(blocks@)),
{
    let nodes = markup_nodes(source);
    let numbers = markup_numbers(source);
    let bodies = markup_bodies(source);
    let blocks = blocks_from_nodes(&nodes, &numbers, &bodies);
    proof {
        lemma_blocks_well_formed(nodes_view(nodes@), numbers@, bodies_view(bodies@));
    }
    blocks
}


// ---------------------------------------------------------------------------
// Laws.

/// The bodies of a block, where it has them, start without whitespace.
pub open spec fn starts_trimmed(b: BlockModel) -> bool {
    match b {
        BlockModel::Heading(_, t) => trim_start(t) == t,
        BlockModel::ListItem(t) => trim_start(t) == t,
        BlockModel::EnumItem(_, t) => trim_start(t) == t,
        BlockModel::TermItem(term, description) => trim_start(term) == term && trim_start(description)
            == description,
        _ => true,
    }
}

/// The shape every parse result has: no two paragraph breaks in a row and
/// no two paragraphs in a row; every paragraph non-empty and without
/// surrounding whitespace; every body, term and description without
/// leading whitespace.
pub open spec fn well_formed_blocks(bs: Seq<BlockModel>) -> bool {
    &&& forall|i: int| 0 <= i < bs.len() - 1 ==> !((#[trigger] bs[i]) is Parbreak && bs[i + 1] is Parbreak)
    &&& forall|i: int| 0 <= i < bs.len() - 1 ==> !((#[trigger] bs[i]) is Paragraph && bs[i + 1] is Paragraph)
    &&& forall|i: int|
        0 <= i < bs.len() && (#[trigger] bs[i]) is Paragraph ==> bs[i]->Paragraph_0.len() > 0 && trim(
            bs[i]->Paragraph_0,
        ) == bs[i]->Paragraph_0
    &&& forall|i: int| 0 <= i < bs.len() ==> starts_trimmed(#[trigger] bs[i])
}

/// The blocks do not end with a paragraph.
pub open spec fn open_for_paragraph(bs: Seq<BlockModel>) -> bool {
    !(bs.len() > 0 && bs.last() is Paragraph)
}

/// Trimming twice trims no more than once.
pub proof fn lemma_trim_idempotent(s: Seq<char>)
    ensures
        trim(trim(s)) == trim(s),
{
    let t = trim(s);
    lemma_skip_white_bounds(s, 0);
    lemma_skip_white_back_bounds(s, s.len() as int);
    lemma_skip_white_bounds(t, 0);
    lemma_skip_white_back_bounds(t, t.len() as int);
    if t.len() > 0 {
        let a = skip_white(s, 0);
        let b = skip_white_back(s, s.len() as int);
        assert(t[0] == s[a]);
        assert(t[t.len() - 1] == s[b - 1]);
        assert(skip_white(t, 0) == 0);
        assert(skip_white_back(t, t.len() as int) == t.len());
        assert(t.subrange(0, t.len() as int) =~= t);
    } else {
        assert(trim(t) =~= t);
    }
}

/// Removing leading whitespace twice removes no more than once.
pub proof fn lemma_trim_start_idempotent(s: Seq<char>)
    ensures
        trim_start(trim_start(s)) == trim_start(s),
{
    let t = trim_start(s);
    lemma_skip_white_bounds(s, 0);
    lemma_skip_white_bounds(t, 0);
    if t.len() > 0 {
        assert(t[0] == s[skip_white(s, 0)]);
        assert(skip_white(t, 0) == 0);
    }
    assert(t.subrange(0, t.len() as int) =~= t);
}

pub proof fn lemma_flush_well_formed(blocks: Seq<BlockModel>, buf: Seq<char>)
    requires
        well_formed_blocks(blocks),
        open_for_paragraph(blocks),
    ensures
        well_formed_blocks(flush(blocks, buf)),
        flush(blocks, buf).len() > 0 && flush(blocks, buf).last() is Parbreak ==> blocks.len() > 0 && blocks.last() is Parbreak
            && flush(blocks, buf) == blocks,
{
    if trim(buf).len() > 0 {
        lemma_trim_idempotent(buf);
        let r = blocks.push(BlockModel::Paragraph(trim(buf)));
        assert forall|i: int| 0 <= i < r.len() - 1 implies !((#[trigger] r[i]) is Parbreak && r[i + 1] is Parbreak) by {
            if i + 1 < blocks.len() {
                assert(r[i] == blocks[i]);
                assert(r[i + 1] == blocks[i + 1]);
            }
        }
        assert forall|i: int| 0 <= i < r.len() - 1 implies !((#[trigger] r[i]) is Paragraph && r[i + 1] is Paragraph) by {
            assert(r[i] == blocks[i]);
            if i + 1 < blocks.len() {
                assert(r[i + 1] == blocks[i + 1]);
            }
        }
        assert forall|i: int| 0 <= i < r.len() && (#[trigger] r[i]) is Paragraph implies r[i]->Paragraph_0.len() > 0
            && trim(r[i]->Paragraph_0) == r[i]->Paragraph_0 by {
            if i < blocks.len() {
                assert(r[i] == blocks[i]);
            }
        }
        assert forall|i: int| 0 <= i < r.len() implies starts_trimmed(#[trigger] r[i]) by {
            if i < blocks.len() {
                assert(r[i] == blocks[i]);
            }
        }
    }
}

pub proof fn lemma_push_well_formed(blocks: Seq<BlockModel>, b: BlockModel)
    requires
        well_formed_blocks(blocks),
        !(b is Paragraph),
        starts_trimmed(b),
        b is Parbreak ==> !(blocks.len() > 0 && blocks.last() is Parbreak),
    ensures
        well_formed_blocks(blocks.push(b)),
        open_for_paragraph(blocks.push(b)),
{
    let r = blocks.push(b);
    assert forall|i: int| 0 <= i < r.len() - 1 implies !((#[trigger] r[i]) is Parbreak && r[i + 1] is Parbreak) by {
        assert(r[i] == blocks[i]);
        if i + 1 < blocks.len() {
            assert(r[i + 1] == blocks[i + 1]);
        }
    }
    assert forall|i: int| 0 <= i < r.len() - 1 implies !((#[trigger] r[i]) is Paragraph && r[i + 1] is Paragraph) by {
        assert(r[i] == blocks[i]);
        if i + 1 < blocks.len() {
            assert(r[i + 1] == blocks[i + 1]);
        }
    }
    assert forall|i: int| 0 <= i < r.len() && (#[trigger] r[i]) is Paragraph implies r[i]->Paragraph_0.len() > 0
        && trim(r[i]->Paragraph_0) == r[i]->Paragraph_0 by {
        assert(r[i] == blocks[i]);
    }
    assert forall|i: int| 0 <= i < r.len() implies starts_trimmed(#[trigger] r[i]) by {
        if i < blocks.len() {
            assert(r[i] == blocks[i]);
        }
    }
}

pub proof fn lemma_parse_upto_well_formed(
    nodes: Seq<NodeModel>,
    numbers: Seq<NodeNumbers>,
    bodies: Seq<Seq<Seq<char>>>,
    k: int,
)
    requires
        0 <= k <= nodes.len(),
    ensures
        well_formed_blocks(parse_upto(nodes, numbers, bodies, k).0),
        open_for_paragraph(parse_upto(nodes, numbers, bodies, k).0),
    decreases k,
{
    if k > 0 {
        lemma_parse_upto_well_formed(nodes, numbers, bodies, k - 1);
        let (blocks, buf) = parse_upto(nodes, numbers, bodies, k - 1);
        lemma_flush_well_formed(blocks, buf);
        let f = flush(blocks, buf);
        let (name, hash, raw) = nodes[k - 1];
        let text = node_text(hash, raw);
        let numbers_k = numbers_at(numbers, k - 1);
        let bodies_k = bodies_at(bodies, k - 1);
        let b0 = body_at(bodies_k, 0);
        let b1 = body_at(bodies_k, 1);
        lemma_trim_start_idempotent(b0);
        lemma_trim_start_idempotent(b1);
        if name == "heading"@ {
            lemma_push_well_formed(f, BlockModel::Heading(numbers_k.0, trim_start(b0)));
        } else if name == "list item"@ {
            lemma_push_well_formed(f, BlockModel::ListItem(trim_start(b0)));
        } else if name == "enum item"@ {
            let number = match numbers_k.1 {
                Some(n) => Some(n as usize),
                None => None,
            };
            lemma_push_well_formed(f, BlockModel::EnumItem(number, trim_start(b0)));
        } else if name == "term list item"@ {
            lemma_push_well_formed(f, BlockModel::TermItem(trim_start(b0), trim_start(b1)));
        } else if name == "paragraph break"@ {
            if !(f.len() > 0 && f.last() is Parbreak) {
                lemma_push_well_formed(f, BlockModel::Parbreak);
            }
        } else if name == "raw block"@ && numbers_k.2 {
            lemma_push_well_formed(f, BlockModel::RawBlock(text));
        } else if name == "equation"@ && numbers_k.2 {
            lemma_push_well_formed(f, BlockModel::Equation(true, text));
        } else if name == "space"@ {
        } else if inline_kind(name) {
        } else if trim(buf).len() == 0 {
            lemma_push_well_formed(f, BlockModel::FuncCall(text));
        }
    }
}

/// Law: parsing never yields two paragraph breaks in a row, nor two
/// paragraphs in a row, nor an empty paragraph, nor a paragraph with
/// leading or trailing whitespace, nor a body, term or description with
/// leading whitespace.
pub proof fn lemma_blocks_well_formed(nodes: Seq<NodeModel>, numbers: Seq<NodeNumbers>, bodies: Seq<Seq<Seq<char>>>)
    ensures
        well_formed_blocks(spec_blocks(nodes, numbers, bodies)),
{
    lemma_parse_upto_well_formed(nodes, numbers, bodies, nodes.len() as int);
    let (blocks, buf) = parse_upto(nodes, numbers, bodies, nodes.len() as int);
    lemma_flush_well_formed(blocks, buf);
}

// ---------------------------------------------------------------------------
// Inline markup.

/// Typst's inline markup, which belongs to the paragraph it stands in:
/// text, line breaks, escape sequences, shorthands, smart quotes, strong and
/// emphasized content, links, labels, references, content blocks, and raw
/// text and equations that are not blocks.
pub open spec fn inline_markup(name: Seq<char>, block: bool) -> bool {
    ||| name == "text"@
    ||| name == "line break"@
    ||| name == "escape sequence"@
    ||| name == "shorthand"@
    ||| name == "smart quote"@
    ||| name == "strong content"@
    ||| name == "emphasized content"@
    ||| name == "link"@
    ||| name == "label"@
    ||| name == "reference"@
    ||| name == "content block"@
    ||| (name == "raw block"@ && !block)
    ||| (name == "equation"@ && !block)
}

proof fn lemma_reveal_kind_names()
    ensures
        "text"@ == seq!['t', 'e', 'x', 't'],
        "line break"@ == seq!['l', 'i', 'n', 'e', ' ', 'b', 'r', 'e', 'a', 'k'],
        "escape sequence"@ == seq!['e', 's', 'c', 'a', 'p', 'e', ' ', 's', 'e', 'q', 'u', 'e', 'n', 'c', 'e'],
        "shorthand"@ == seq!['s', 'h', 'o', 'r', 't', 'h', 'a', 'n', 'd'],
        "smart quote"@ == seq!['s', 'm', 'a', 'r', 't', ' ', 'q', 'u', 'o', 't', 'e'],
        "strong content"@ == seq!['s', 't', 'r', 'o', 'n', 'g', ' ', 'c', 'o', 'n', 't', 'e', 'n', 't'],
        "emphasized content"@ == seq!['e', 'm', 'p', 'h', 'a', 's', 'i', 'z', 'e', 'd', ' ', 'c', 'o', 'n', 't', 'e', 'n', 't'],
        "link"@ == seq!['l', 'i', 'n', 'k'],
        "label"@ == seq!['l', 'a', 'b', 'e', 'l'],
        "reference"@ == seq!['r', 'e', 'f', 'e', 'r', 'e', 'n', 'c', 'e'],
        "raw block"@ == seq!['r', 'a', 'w', ' ', 'b', 'l', 'o', 'c', 'k'],
        "equation"@ == seq!['e', 'q', 'u', 'a', 't', 'i', 'o', 'n'],
        "content block"@ == seq!['c', 'o', 'n', 't', 'e', 'n', 't', ' ', 'b', 'l', 'o', 'c', 'k'],
        "heading"@ == seq!['h', 'e', 'a', 'd', 'i', 'n', 'g'],
        "list item"@ == seq!['l', 'i', 's', 't', ' ', 'i', 't', 'e', 'm'],
        "enum item"@ == seq!['e', 'n', 'u', 'm', ' ', 'i', 't', 'e', 'm'],
        "term list item"@ == seq!['t', 'e', 'r', 'm', ' ', 'l', 'i', 's', 't', ' ', 'i', 't', 'e', 'm'],
        "paragraph break"@ == seq!['p', 'a', 'r', 'a', 'g', 'r', 'a', 'p', 'h', ' ', 'b', 'r', 'e', 'a', 'k'],
        "space"@ == seq!['s', 'p', 'a', 'c', 'e'],
{
    reveal_strlit("text");
    reveal_strlit("line break");
    reveal_strlit("escape sequence");
    reveal_strlit("shorthand");
    reveal_strlit("smart quote");
    reveal_strlit("strong content");
    reveal_strlit("emphasized content");
    reveal_strlit("link");
    reveal_strlit("label");
    reveal_strlit("reference");
    reveal_strlit("raw block");
    reveal_strlit("equation");
    reveal_strlit("content block");
    reveal_strlit("heading");
    reveal_strlit("list item");
    reveal_strlit("enum item");
    reveal_strlit("term list item");
    reveal_strlit("paragraph break");
    reveal_strlit("space");
}

/// Law: inline markup never starts a block: reading it appends its text to
/// the paragraph being accumulated and leaves the blocks as they are.
pub proof fn lemma_inline_extends_paragraph(st: ParseState, node: NodeModel, numbers: NodeNumbers, bodies: Seq<Seq<char>>)
    requires
        inline_markup(node.0, numbers.2),
    ensures
        parse_step(st, node, numbers, bodies) == (st.0, st.1 + node_text(node.1, node.2)),
{
    lemma_reveal_kind_names();
}

/// Inline markup, or a space within a line.
pub open spec fn in_line(node: NodeModel, numbers: NodeNumbers) -> bool {
    inline_markup(node.0, numbers.2) || (node.0 == "space"@ && !node_text(node.1, node.2).contains('\n'))
}

/// The source texts of the first `k` expressions, in order.
pub open spec fn nodes_text(nodes: Seq<NodeModel>, k: int) -> Seq<char>
    decreases k,
{
    if k <= 0 {
        Seq::empty()
    } else {
        nodes_text(nodes, k - 1) + node_text(nodes[k - 1].1, nodes[k - 1].2)
    }
}

proof fn lemma_in_line_upto(nodes: Seq<NodeModel>, numbers: Seq<NodeNumbers>, bodies: Seq<Seq<Seq<char>>>, k: int)
    requires
        0 <= k <= nodes.len(),
        forall|i: int| 0 <= i < nodes.len() ==> in_line(#[trigger] nodes[i], numbers_at(numbers, i)),
    ensures
        parse_upto(nodes, numbers, bodies, k) == (Seq::<BlockModel>::empty(), nodes_text(nodes, k)),
    decreases k,
{
    lemma_reveal_kind_names();
    if k > 0 {
        lemma_in_line_upto(nodes, numbers, bodies, k - 1);
        let node = nodes[k - 1];
        assert(in_line(node, numbers_at(numbers, k - 1)));
        if inline_markup(node.0, numbers_at(numbers, k - 1).2) {
            lemma_inline_extends_paragraph(
                parse_upto(nodes, numbers, bodies, k - 1),
                node,
                numbers_at(numbers, k - 1),
                bodies_at(bodies, k - 1),
            );
        }
    }
}

/// Law: a line of text and inline markup (no code, no block markup) is one
/// paragraph holding the whole line, trimmed, or nothing if the line is
/// blank.
pub proof fn lemma_line_is_one_paragraph(nodes: Seq<NodeModel>, numbers: Seq<NodeNumbers>, bodies: Seq<Seq<Seq<char>>>)
    requires
        forall|i: int| 0 <= i < nodes.len() ==> in_line(#[trigger] nodes[i], numbers_at(numbers, i)),
    ensures
        spec_blocks(nodes, numbers, bodies) == if trim(nodes_text(nodes, nodes.len() as int)).len() > 0 {
            seq![BlockModel::Paragraph(trim(nodes_text(nodes, nodes.len() as int)))]
        } else {
            Seq::<BlockModel>::empty()
        },
{
    lemma_in_line_upto(nodes, numbers, bodies, nodes.len() as int);
    assert(Seq::<BlockModel>::empty().push(BlockModel::Paragraph(trim(nodes_text(nodes, nodes.len() as int))))
        =~= seq![BlockModel::Paragraph(trim(nodes_text(nodes, nodes.len() as int)))]);
}

} // verus!
