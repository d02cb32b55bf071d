//! A diff tool for Typst documents: parses two sources into block-level
//! elements, aligns them, diffs modified blocks word by word and renders the
//! result as Typst markup.

use vstd::prelude::*;

pub mod diff;
pub mod label;
pub mod ops;
pub mod parse;
pub mod render;
pub mod text;
pub mod tokens;
pub mod words;

use crate::text::{decimal, lemma_decimal_digits, lemma_decimal_injective, push_decimal, push_str, string_from_chars};

verus! {

/// A block-level element extracted from a Typst document.
#[derive(Debug, Clone, PartialEq, Eq)]
pub enum Block {
    Paragraph { source_text: String },
    Heading { depth: usize, body_text: String },
    ListItem { body_text: String },
    EnumItem { number: Option<usize>, body_text: String },
    TermItem { term: String, description: String },
    /// Atomic: not diffed internally.
    RawBlock { content: String },
    /// Atomic: not diffed internally.
    Equation { block: bool, content: String },
    /// Atomic: not diffed internally.
    FuncCall { content: String },
    Parbreak,
}

/// The kind of block, used to determine if two blocks can be merged into a Modified result.
#[derive(Debug, Clone, Copy, PartialEq, Eq, Structural)]
pub enum BlockKind {
    Paragraph,
    Heading { depth: usize },
    ListItem,
    EnumItem { number: Option<usize> },
    TermItem,
    Atomic,
    Parbreak,
}

/// Tag for a diff span.
#[derive(Debug, Clone, Copy, PartialEq, Eq, Structural)]
pub enum SpanTag {
    Equal,
    Deleted,
    Inserted,
}

/// A span within a modified block, representing equal, deleted, or inserted text.
#[derive(Debug, Clone, PartialEq, Eq)]
pub struct DiffSpan {
    pub tag: SpanTag,
    pub text: String,
}

/// Result of diffing two documents at the block level.
#[derive(Debug, Clone, PartialEq, Eq)]
pub enum DiffResult {
    Unchanged(Block),
    Added(Block),
    Deleted(Block),
    Modified { kind: BlockKind, spans: Vec<DiffSpan> },
}

/// A block taken by the characters of its texts.
pub enum BlockModel {
    Paragraph(Seq<char>),
    Heading(usize, Seq<char>),
    ListItem(Seq<char>),
    EnumItem(Option<usize>, Seq<char>),
    TermItem(Seq<char>, Seq<char>),
    RawBlock(Seq<char>),
    Equation(bool, Seq<char>),
    FuncCall(Seq<char>),
    Parbreak,
}

pub open spec fn block_model(b: Block) -> BlockModel {
    match b {
        Block::Paragraph { source_text } => BlockModel::Paragraph(source_text@),
        Block::Heading { depth, body_text } => BlockModel::Heading(depth, body_text@),
        Block::ListItem { body_text } => BlockModel::ListItem(body_text@),
        Block::EnumItem { number, body_text } => BlockModel::EnumItem(number, body_text@),
        Block::TermItem { term, description } => BlockModel::TermItem(term@, description@),
        Block::RawBlock { content } => BlockModel::RawBlock(content@),
        Block::Equation { block, content } => BlockModel::Equation(block, content@),
        Block::FuncCall { content } => BlockModel::FuncCall(content@),
        Block::Parbreak => BlockModel::Parbreak,
    }
}

pub open spec fn blocks_model(bs: Seq<Block>) -> Seq<BlockModel> {
    bs.map_values(|b: Block| block_model(b))
}

/// A span as a tag and the characters of its text.
pub type SpanModel = (SpanTag, Seq<char>);

/// A diff result taken by the characters of its texts.
pub enum ResultModel {
    Unchanged(BlockModel),
    Added(BlockModel),
    Deleted(BlockModel),
    Modified(BlockKind, Seq<SpanModel>),
}

pub open spec fn span_model(s: DiffSpan) -> SpanModel {
    (s.tag, s.text@)
}

pub open spec fn spans_model(spans: Seq<DiffSpan>) -> Seq<SpanModel> {
    spans.map_values(|s: DiffSpan| span_model(s))
}

pub open spec fn result_model(r: DiffResult) -> ResultModel {
    match r {
        DiffResult::Unchanged(b) => ResultModel::Unchanged(block_model(b)),
        DiffResult::Added(b) => ResultModel::Added(block_model(b)),
        DiffResult::Deleted(b) => ResultModel::Deleted(block_model(b)),
        DiffResult::Modified { kind, spans } => ResultModel::Modified(kind, spans_model(spans@)),
    }
}

pub open spec fn results_model(rs: Seq<DiffResult>) -> Seq<ResultModel> {
    rs.map_values(|r: DiffResult| result_model(r))
}

pub open spec fn spec_kind(b: BlockModel) -> BlockKind {
    match b {
        BlockModel::Paragraph(..) => BlockKind::Paragraph,
        BlockModel::Heading(depth, _) => BlockKind::Heading { depth },
        BlockModel::ListItem(..) => BlockKind::ListItem,
        BlockModel::EnumItem(number, _) => BlockKind::EnumItem { number },
        BlockModel::TermItem(..) => BlockKind::TermItem,
        BlockModel::RawBlock(..) | BlockModel::Equation(..) | BlockModel::FuncCall(..) => BlockKind::Atomic,
        BlockModel::Parbreak => BlockKind::Parbreak,
    }
}

/// The signature used for block-level alignment: a tag for the kind of
/// block, its parameters, and its text.
pub open spec fn spec_signature(b: BlockModel) -> Seq<char> {
    match b {
        BlockModel::Paragraph(t) => "P:"@ + t,
        BlockModel::Heading(depth, t) => "H"@ + decimal(depth as nat) + ":"@ + t,
        BlockModel::ListItem(t) => "LI:"@ + t,
        BlockModel::EnumItem(number, t) => "EI"@ + match number {
            Some(n) => decimal(n as nat),
            None => "?"@,
        } + ":"@ + t,
        BlockModel::TermItem(term, description) => "TI:"@ + term + ":"@ + description,
        BlockModel::RawBlock(content) => "RAW:"@ + content,
        BlockModel::Equation(block, content) => "EQ"@ + (if block {
            "true"@
        } else {
            "false"@
        }) + ":"@ + content,
        BlockModel::FuncCall(content) => "FC:"@ + content,
        BlockModel::Parbreak => "PB"@,
    }
}

/// The text used for word-level diffing; atomic blocks have none.
pub open spec fn spec_diff_text(b: BlockModel) -> Option<Seq<char>> {
    match b {
        BlockModel::Paragraph(t) => Some(t),
        BlockModel::Heading(_, t) => Some(t),
        BlockModel::ListItem(t) => Some(t),
        BlockModel::EnumItem(_, t) => Some(t),
        BlockModel::TermItem(term, description) => Some(term + ": "@ + description),
        _ => None,
    }
}

/// Raw blocks, equations, function calls and paragraph breaks are atomic.
pub open spec fn spec_is_atomic(b: BlockModel) -> bool {
    b is RawBlock || b is Equation || b is FuncCall || b is Parbreak
}

impl Block {
    /// Returns a signature string used for block-level alignment.
    pub fn signature(&self) -> (s: String)
        ensures
            s@ == spec_signature(block_model(*self)),
    {
        let mut out: Vec<char> = Vec::new();
        match self {
            Block::Paragraph { source_text } => {
                push_str(&mut out, "P:");
                push_str(&mut out, source_text.as_str());
            },
            Block::Heading { depth, body_text } => {
                push_str(&mut out, "H");
                push_decimal(&mut out, *depth);
                push_str(&mut out, ":");
                push_str(&mut out, body_text.as_str());
            },
            Block::ListItem { body_text } => {
                push_str(&mut out, "LI:");
                push_str(&mut out, body_text.as_str());
            },
            Block::EnumItem { number, body_text } => {
                push_str(&mut out, "EI");
                match number {
                    Some(n) => push_decimal(&mut out, *n),
                    None => push_str(&mut out, "?"),
                }
                push_str(&mut out, ":");
                push_str(&mut out, body_text.as_str());
            },
            Block::TermItem { term, description } => {
                push_str(&mut out, "TI:");
                push_str(&mut out, term.as_str());
                push_str(&mut out, ":");
                push_str(&mut out, description.as_str());
            },
            Block::RawBlock { content } => {
                push_str(&mut out, "RAW:");
                push_str(&mut out, content.as_str());
            },
            Block::Equation { block, content } => {
                push_str(&mut out, "EQ");
                if *block {
                    push_str(&mut out, "true");
                } else {
                    push_str(&mut out, "false");
                }
                push_str(&mut out, ":");
                push_str(&mut out, content.as_str());
            },
            Block::FuncCall { content } => {
                push_str(&mut out, "FC:");
                push_str(&mut out, content.as_str());
            },
            Block::Parbreak => {
                push_str(&mut out, "PB");
            },
        }
        assert(out@ =~= spec_signature(block_model(*self)));
        string_from_chars(&out)
    }

    /// Returns the `BlockKind` of this block.
    pub fn kind(&self) -> (k: BlockKind)
        ensures
            k == spec_kind(block_model(*self)),
    {
        match self {
            Block::Paragraph { .. } => BlockKind::Paragraph,
            Block::Heading { depth, .. } => BlockKind::Heading { depth: *depth },
            Block::ListItem { .. } => BlockKind::ListItem,
            Block::EnumItem { number, .. } => BlockKind::EnumItem { number: *number },
            Block::TermItem { .. } => BlockKind::TermItem,
            Block::RawBlock { .. } | Block::Equation { .. } | Block::FuncCall { .. } => {
                BlockKind::Atomic
            },
            Block::Parbreak => BlockKind::Parbreak,
        }
    }

    /// Returns the text content used for word-level diffing.
    pub fn diff_text(&self) -> (t: Option<String>)
        ensures
            t matches Some(s) ==> spec_diff_text(block_model(*self)) == Some(s@),
            t is None <==> spec_diff_text(block_model(*self)) is None,
    {
        match self {
            Block::Paragraph { source_text } => Some(source_text.clone()),
            Block::Heading { body_text, .. } => Some(body_text.clone()),
            Block::ListItem { body_text } => Some(body_text.clone()),
            Block::EnumItem { body_text, .. } => Some(body_text.clone()),
            Block::TermItem { term, description } => {
                let mut out: Vec<char> = Vec::new();
                push_str(&mut out, term.as_str());
                push_str(&mut out, ": ");
                push_str(&mut out, description.as_str());
                Some(string_from_chars(&out))
            },
            _ => None,
        }
    }

    /// Returns true if this block should be treated as atomic (no word-level diff).
    pub fn is_atomic(&self) -> (r: bool)
        ensures
            r == spec_is_atomic(block_model(*self)),
    {
        match self {
            Block::RawBlock { .. } | Block::Equation { .. } | Block::FuncCall { .. } | Block::Parbreak => true,
            _ => false,
        }
    }

    /// A copy of this block.
    pub fn duplicate(&self) -> (r: Block)
        ensures
            r == *self,
    {
        match self {
            Block::Paragraph { source_text } => Block::Paragraph { source_text: source_text.clone() },
            Block::Heading { depth, body_text } => Block::Heading { depth: *depth, body_text: body_text.clone() },
            Block::ListItem { body_text } => Block::ListItem { body_text: body_text.clone() },
            Block::EnumItem { number, body_text } => Block::EnumItem { number: *number, body_text: body_text.clone() },
            Block::TermItem { term, description } => Block::TermItem { term: term.clone(), description: description.clone() },
            Block::RawBlock { content } => Block::RawBlock { content: content.clone() },
            Block::Equation { block, content } => Block::Equation { block: *block, content: content.clone() },
            Block::FuncCall { content } => Block::FuncCall { content: content.clone() },
            Block::Parbreak => Block::Parbreak,
        }
    }
}

/// The blocks other than paragraph breaks (the diff works on content
/// blocks only; the rendering puts a break between any two of them).
pub open spec fn without_parbreaks(bs: Seq<BlockModel>) -> Seq<BlockModel>
    decreases bs.len(),
{
    if bs.len() == 0 {
        Seq::empty()
    } else {
        without_parbreaks(bs.drop_last()) + if bs.last() is Parbreak {
            Seq::empty()
        } else {
            seq![bs.last()]
        }
    }
}

/// The diff markup for two Typst sources.
pub open spec fn spec_diff_sources(old: Seq<char>, new: Seq<char>) -> Seq<char> {
    render::spec_render(
        diff::spec_diff(without_parbreaks(parse::spec_parse(old)), without_parbreaks(parse::spec_parse(new))),
    )
}

/// Removes the paragraph breaks.
pub fn drop_parbreaks(blocks: Vec<Block>) -> (r: Vec<Block>)
    ensures
        blocks_model(r@) == without_parbreaks(blocks_model(blocks@)),
{
    let mut r: Vec<Block> = Vec::new();
    let n = blocks.len();
    let mut i: usize = 0;
    while i < n
        invariant
            n == blocks@.len(),
            i <= n,
            blocks_model(r@) == without_parbreaks(blocks_model(blocks@.take(i as int))),
        decreases n - i,
    {
        let b = &blocks[i];
        let ghost prev = r@;
        assert(blocks_model(blocks@.take(i + 1)) =~= blocks_model(blocks@.take(i as int)).push(block_model(*b)));
        match b {
            Block::Parbreak => {},
            _ => {
                let c = b.duplicate();
                r.push(c);
                assert(blocks_model(r@) =~= blocks_model(prev).push(block_model(c)));
            },
        }
        assert(blocks_model(blocks@.take(i + 1)).drop_last() =~= blocks_model(blocks@.take(i as int)));
        i = i + 1;
    }
    assert(blocks@.take(n as int) =~= blocks@);
    r
}

/// Diff two Typst documents given as source text, returning the diff markup:
/// both are parsed into blocks, paragraph breaks are dropped, the blocks are
/// diffed and the result is rendered.
pub fn diff_sources(old: &str, new: &str) -> (out: String)
    ensures
        out@ == spec_diff_sources(old@, new@),
        // A document compared with itself comes back with every block unchanged.
        old@ == new@ ==> out@ == render::spec_render(
            diff::all_unchanged(without_parbreaks(parse::spec_parse(old@))),
        ),
{
    let old_blocks = drop_parbreaks(parse::parse(old));
    let new_blocks = drop_parbreaks(parse::parse(new));
    let results = diff::diff(old_blocks.as_slice(), new_blocks.as_slice());
    render::render(results.as_slice())
}

// ---------------------------------------------------------------------------
// Signatures.

/// The part of a block's signature before its first `:` (none for a
/// paragraph break): the kind of block and its parameters.
pub open spec fn sig_head(b: BlockModel) -> Seq<char> {
    match b {
        BlockModel::Paragraph(_) => "P"@,
        BlockModel::Heading(depth, _) => "H"@ + decimal(depth as nat),
        BlockModel::ListItem(_) => "LI"@,
        BlockModel::EnumItem(number, _) => "EI"@ + match number {
            Some(n) => decimal(n as nat),
            None => "?"@,
        },
        BlockModel::TermItem(..) => "TI"@,
        BlockModel::RawBlock(_) => "RAW"@,
        BlockModel::Equation(block, _) => "EQ"@ + if block {
            "true"@
        } else {
            "false"@
        },
        BlockModel::FuncCall(_) => "FC"@,
        BlockModel::Parbreak => "PB"@,
    }
}

/// The part of a block's signature after its first `:`.
pub open spec fn sig_tail(b: BlockModel) -> Seq<char> {
    match b {
        BlockModel::Paragraph(t) => t,
        BlockModel::Heading(_, t) => t,
        BlockModel::ListItem(t) => t,
        BlockModel::EnumItem(_, t) => t,
        BlockModel::TermItem(term, description) => term + seq![':'] + description,
        BlockModel::RawBlock(c) => c,
        BlockModel::Equation(_, c) => c,
        BlockModel::FuncCall(c) => c,
        BlockModel::Parbreak => Seq::empty(),
    }
}

/// A term item's term holds no `:` (other blocks qualify as they are).
pub open spec fn colon_free_term(b: BlockModel) -> bool {
    b matches BlockModel::TermItem(term, _) ==> !term.contains(':')
}

pub proof fn lemma_colon_split(a: Seq<char>, b: Seq<char>, c: Seq<char>, d: Seq<char>)
    requires
        !a.contains(':'),
        !c.contains(':'),
        a + seq![':'] + b == c + seq![':'] + d,
    ensures
        a == c,
        b == d,
{
    let x = a + seq![':'] + b;
    let y = c + seq![':'] + d;
    if a.len() < c.len() {
        assert(x[a.len() as int] == ':');
        assert(y[a.len() as int] == c[a.len() as int]);
        assert(c.contains(':'));
    } else if c.len() < a.len() {
        assert(y[c.len() as int] == ':');
        assert(x[c.len() as int] == a[c.len() as int]);
        assert(a.contains(':'));
    }
    assert(a =~= x.subrange(0, a.len() as int));
    assert(c =~= y.subrange(0, c.len() as int));
    assert(b =~= x.subrange(a.len() + 1int, x.len() as int));
    assert(d =~= y.subrange(c.len() + 1int, y.len() as int));
}

proof fn lemma_sig_parts(b: BlockModel)
    ensures
        !(b is Parbreak) ==> spec_signature(b) == sig_head(b) + seq![':'] + sig_tail(b),
        !sig_head(b).contains(':'),
        sig_head(b).len() >= 1,
        b is Parbreak ==> spec_signature(b) == sig_head(b) && sig_head(b).len() == 2,
        sig_head(b)[0] == match b {
            BlockModel::Paragraph(_) => 'P',
            BlockModel::Heading(..) => 'H',
            BlockModel::ListItem(_) => 'L',
            BlockModel::EnumItem(..) => 'E',
            BlockModel::TermItem(..) => 'T',
            BlockModel::RawBlock(_) => 'R',
            BlockModel::Equation(..) => 'E',
            BlockModel::FuncCall(_) => 'F',
            BlockModel::Parbreak => 'P',
        },
        (b is EnumItem || b is Equation) ==> sig_head(b).len() >= 3 && sig_head(b)[1] == if b is EnumItem {
            'I'
        } else {
            'Q'
        },
{
    reveal_strlit("P");
    reveal_strlit("H");
    reveal_strlit("LI");
    reveal_strlit("EI");
    reveal_strlit("?");
    reveal_strlit("TI");
    reveal_strlit("RAW");
    reveal_strlit("EQ");
    reveal_strlit("true");
    reveal_strlit("false");
    reveal_strlit("FC");
    reveal_strlit("PB");
    reveal_strlit("P:");
    reveal_strlit(":");
    reveal_strlit("LI:");
    reveal_strlit("TI:");
    reveal_strlit("RAW:");
    reveal_strlit("FC:");
    let h = sig_head(b);
    match b {
        BlockModel::Heading(depth, t) => {
            lemma_decimal_digits(depth as nat);
            assert(spec_signature(b) =~= h + seq![':'] + sig_tail(b));
            assert forall|i: int| 0 <= i < h.len() implies h[i] != ':' by {
                if i > 0 {
                    assert(h[i] == decimal(depth as nat)[i - 1]);
                }
            }
        },
        BlockModel::EnumItem(number, t) => {
            match number {
                Some(n) => {
                    lemma_decimal_digits(n as nat);
                },
                None => {},
            }
            assert(spec_signature(b) =~= h + seq![':'] + sig_tail(b));
            assert forall|i: int| 0 <= i < h.len() implies h[i] != ':' by {
                if i > 1 {
                    match number {
                        Some(n) => assert(h[i] == decimal(n as nat)[i - 2]),
                        None => {},
                    }
                }
            }
        },
        BlockModel::Equation(block, c) => {
            assert(spec_signature(b) =~= h + seq![':'] + sig_tail(b));
            assert forall|i: int| 0 <= i < h.len() implies h[i] != ':' by {}
        },
        BlockModel::TermItem(term, description) => {
            assert(spec_signature(b) =~= h + seq![':'] + sig_tail(b));
            assert forall|i: int| 0 <= i < h.len() implies h[i] != ':' by {}
        },
        _ => {
            assert(!(b is Parbreak) ==> spec_signature(b) =~= h + seq![':'] + sig_tail(b));
            assert forall|i: int| 0 <= i < h.len() implies h[i] != ':' by {}
        },
    }
}

/// Law: two blocks with the same signature are the same block, provided no
/// term of a term item holds a `:` (for `TI:a:b:c` could be the term `a`
/// and the description `b:c`, or the term `a:b` and the description `c`).
pub proof fn lemma_signature_injective(b1: BlockModel, b2: BlockModel)
    requires
        colon_free_term(b1),
        colon_free_term(b2),
        spec_signature(b1) == spec_signature(b2),
    ensures
        b1 == b2,
{
    lemma_sig_parts(b1);
    lemma_sig_parts(b2);
    let h1 = sig_head(b1);
    let h2 = sig_head(b2);
    if b1 is Parbreak || b2 is Parbreak {
        if !(b1 is Parbreak) {
            assert(spec_signature(b1)[h1.len() as int] == ':');
            assert(h2.contains(':'));
        } else if !(b2 is Parbreak) {
            assert(spec_signature(b2)[h2.len() as int] == ':');
            assert(h1.contains(':'));
        }
    } else {
        lemma_colon_split(h1, sig_tail(b1), h2, sig_tail(b2));
        assert(h1[0] == h2[0]);
        match (b1, b2) {
            (BlockModel::Heading(d1, _), BlockModel::Heading(d2, _)) => {
                reveal_strlit("H");
                assert(decimal(d1 as nat) =~= h1.drop_first());
                assert(decimal(d2 as nat) =~= h2.drop_first());
                lemma_decimal_injective(d1 as nat, d2 as nat);
            },
            (BlockModel::EnumItem(n1, _), BlockModel::EnumItem(n2, _)) => {
                reveal_strlit("EI");
                reveal_strlit("?");
                let x1 = h1.subrange(2, h1.len() as int);
                let x2 = h2.subrange(2, h2.len() as int);
                assert(x1 == x2);
                match (n1, n2) {
                    (Some(a), Some(c)) => {
                        assert(decimal(a as nat) =~= x1);
                        assert(decimal(c as nat) =~= x2);
                        lemma_decimal_injective(a as nat, c as nat);
                    },
                    (Some(a), None) => {
                        lemma_decimal_digits(a as nat);
                        assert(x1[0] == decimal(a as nat)[0]);
                        assert(x2[0] == '?');
                    },
                    (None, Some(c)) => {
                        lemma_decimal_digits(c as nat);
                        assert(x2[0] == decimal(c as nat)[0]);
                        assert(x1[0] == '?');
                    },
                    (None, None) => {},
                }
            },
            (BlockModel::Equation(e1, _), BlockModel::Equation(e2, _)) => {
                reveal_strlit("EQ");
                reveal_strlit("true");
                reveal_strlit("false");
                if e1 != e2 {
                    assert(h1[2] != h2[2]);
                }
            },
            (BlockModel::EnumItem(..), BlockModel::Equation(..)) => {
                assert(h1[1] != h2[1]);
            },
            (BlockModel::Equation(..), BlockModel::EnumItem(..)) => {
                assert(h1[1] != h2[1]);
            },
            (BlockModel::TermItem(t1, d1), BlockModel::TermItem(t2, d2)) => {
                lemma_colon_split(t1, d1, t2, d2);
            },
            _ => {},
        }
    }
}

} // verus!
