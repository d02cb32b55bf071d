//! Rendering diff results as a compilable Typst document.

use vstd::prelude::*;
use crate::{
    Block, BlockKind, BlockModel, block_model, DiffResult, DiffSpan, ResultModel, SpanModel, SpanTag, results_model, result_model,
    spans_model, spec_diff_text, spec_is_atomic, spec_kind,
};
use crate::label::{label_end, label_only, lemma_label_end_bounds, TypstLabel};
use crate::text::{
    ascii_alpha, decimal, is_ascii_alpha, is_white_space, lemma_skip_white_bounds, push_chars,
    push_decimal, push_str, skip_white, slice_chars, string_from_chars, to_chars, trim,
    trim_chars, unicode_white_space, find_non_white,
};
use crate::words::span_texts;
use crate::tokens::{balanced_end, lemma_run_end_bounds, run_end, skip_balanced, RunClass};

verus! {

/// Definitions of the two markup functions that the rendered body uses.
pub const PREAMBLE: &'static str = "#let diff-added(body) = {\n  set text(fill: rgb(\"#0000ff\"))\n  underline(body)\n}\n#let diff-deleted(body) = {\n  set text(fill: rgb(\"#cc0000\"))\n  strike(body)\n}\n";

/// Whether a block is rendered as added or as deleted.
#[derive(Clone, Copy, PartialEq, Eq, Structural)]
pub enum DiffTag {
    Added,
    Deleted,
}

pub open spec fn func_name_spec(tag: DiffTag) -> Seq<char> {
    match tag {
        DiffTag::Added => "diff-added"@,
        DiffTag::Deleted => "diff-deleted"@,
    }
}

impl DiffTag {
    /// Name of the Typst function that marks this kind of change.
    pub fn func_name(self) -> (r: &'static str)
        ensures
            r@ == func_name_spec(self),
    {
        match self {
            DiffTag::Added => "diff-added",
            DiffTag::Deleted => "diff-deleted",
        }
    }
}

// ---------------------------------------------------------------------------
// Escaping.

/// If `#identifier(` starts at `i`, the end of that argument list (code, in
/// which references and labels are not markup); otherwise 0.
pub open spec fn code_args_end(s: Seq<char>, i: int) -> int {
    if 0 <= i && i + 1 < s.len() && s[i] == '#' && ascii_alpha(s[i + 1]) {
        let k = run_end(s, i + 1, RunClass::Ident);
        if k < s.len() && s[k] == '(' {
            balanced_end(s, k, '(', ')')
        } else {
            0
        }
    } else {
        0
    }
}

pub open spec fn max(a: int, b: int) -> int {
    if a >= b {
        a
    } else {
        b
    }
}

/// Escaped text from position `i` on, with `depth` unclosed `[` so far and
/// code (where `@` and `<` are left alone) running up to `code_until`.
pub open spec fn escape_scan(s: Seq<char>, i: int, depth: int, code_until: int, escape_refs: bool) -> Seq<char>
    decreases s.len() - i,
{
    if i < 0 || i >= s.len() {
        Seq::empty()
    } else {
        let c = s[i];
        let cu = if c == '#' {
            max(code_until, code_args_end(s, i))
        } else {
            code_until
        };
        if c == '[' {
            seq!['['] + escape_scan(s, i + 1, depth + 1, cu, escape_refs)
        } else if c == ']' {
            if depth > 0 {
                seq![']'] + escape_scan(s, i + 1, depth - 1, cu, escape_refs)
            } else {
                seq!['\\', ']'] + escape_scan(s, i + 1, depth, cu, escape_refs)
            }
        } else if escape_refs && (c == '@' || c == '<') && cu <= i {
            seq!['\\', c] + escape_scan(s, i + 1, depth, cu, escape_refs)
        } else {
            seq![c] + escape_scan(s, i + 1, depth, cu, escape_refs)
        }
    }
}

/// Number of backslashes at the end of `s`.
pub open spec fn trailing_backslashes(s: Seq<char>) -> nat
    decreases s.len(),
{
    if s.len() > 0 && s.last() == '\\' {
        1 + trailing_backslashes(s.drop_last())
    } else {
        0
    }
}

/// Content made safe to stand inside a Typst content block `[...]`:
/// balanced `[...]` pairs are kept, an unbalanced `]` becomes `\]`; when
/// `escape_refs` holds, `@` and `<` in markup become `\@` and `\<` (so that a
/// deleted reference or label neither resolves nor defines anything), while
/// inside the argument list of a `#function(...)` call they are left as
/// code; and a trailing odd run of backslashes gets a space after it so that
/// the closing `]` is not escaped.
pub open spec fn escape(s: Seq<char>, escape_refs: bool) -> Seq<char> {
    let r = escape_scan(s, 0, 0, 0, escape_refs);
    if trailing_backslashes(r) % 2 == 1 {
        r.push(' ')
    } else {
        r
    }
}

/// `#func[content]`.
pub open spec fn wrapped(tag: DiffTag, content: Seq<char>) -> Seq<char> {
    seq!['#'] + func_name_spec(tag) + seq!['['] + escape(content, tag == DiffTag::Deleted) + seq![']']
}

fn code_args_end_exec(s: &Vec<char>, i: usize) -> (r: usize)
    requires
        i < s@.len(),
    ensures
        r == code_args_end(s@, i as int),
        r <= s@.len(),
{
    let n = s.len();
    if i + 1 < n && s[i] == '#' && is_ascii_alpha(s[i + 1]) {
        let mut k = i + 1;
        proof {
            lemma_run_end_bounds(s@, i + 1, RunClass::Ident);
        }
        while k < n && (crate::text::is_ascii_alnum(s[k]) || s[k] == '-' || s[k] == '_')
            invariant
                n == s@.len(),
                i < k <= n,
                run_end(s@, k as int, RunClass::Ident) == run_end(s@, i + 1, RunClass::Ident),
            decreases n - k,
        {
            k = k + 1;
        }
        if k < n && s[k] == '(' {
            skip_balanced(s, k, '(', ')')
        } else {
            0
        }
    } else {
        0
    }
}

fn count_trailing_backslashes(s: &Vec<char>) -> (r: usize)
    ensures
        r == trailing_backslashes(s@),
{
    let n = s.len();
    let mut k = n;
    let mut count: usize = 0;
    assert(s@.take(n as int) =~= s@);
    while k > 0 && s[k - 1] == '\\'
        invariant
            n == s@.len(),
            k <= n,
            count + k == n,
            trailing_backslashes(s@) == count + trailing_backslashes(s@.take(k as int)),
        decreases k,
    {
        assert(s@.take(k as int).drop_last() =~= s@.take(k - 1));
        k = k - 1;
        count = count + 1;
    }
    assert(k > 0 ==> s@.take(k as int).last() == s@[k - 1]);
    count
}

/// Escape content so it can safely be placed inside a Typst content block
/// `[...]` (see `escape`).
pub fn escape_content(s: &str, escape_refs: bool) -> (r: String)
    ensures
        r@ == escape(s@, escape_refs),
        // The closing `]` placed after the result is never escaped.
        trailing_backslashes(r@) % 2 == 0,
{
    proof {
        lemma_escape_closes(s@, escape_refs);
    }
    let chars = to_chars(s);
    let n = chars.len();
    let mut result: Vec<char> = Vec::new();
    let mut depth: usize = 0;
    let mut code_until: usize = 0;
    let mut i: usize = 0;
    while i < n
        invariant
            n == chars@.len(),
            chars@ == s@,
            i <= n,
            depth <= i,
            code_until <= n,
            result@ + escape_scan(chars@, i as int, depth as int, code_until as int, escape_refs)
                == escape_scan(chars@, 0, 0, 0, escape_refs),
        decreases n - i,
    {
        let ghost prev = result@;
        let ghost d0 = depth as int;
        let ghost c0 = code_until as int;
        let ch = chars[i];
        if ch == '#' {
            let e = code_args_end_exec(&chars, i);
            if e > code_until {
                code_until = e;
            }
        }
        let ghost piece: Seq<char>;
        if ch == '[' {
            depth = depth + 1;
            result.push('[');
            proof { piece = seq!['[']; }
        } else if ch == ']' {
            if depth > 0 {
                depth = depth - 1;
                result.push(']');
                proof { piece = seq![']']; }
            } else {
                result.push('\\');
                result.push(']');
                proof { piece = seq!['\\', ']']; }
            }
        } else if escape_refs && (ch == '@' || ch == '<') && code_until <= i {
            result.push('\\');
            result.push(ch);
            proof { piece = seq!['\\', ch]; }
        } else {
            result.push(ch);
            proof { piece = seq![ch]; }
        }
        assert(result@ =~= prev + piece);
        assert(escape_scan(chars@, i as int, d0, c0, escape_refs)
            == piece + escape_scan(chars@, i + 1, depth as int, code_until as int, escape_refs));
        assert(prev + piece + escape_scan(chars@, i + 1, depth as int, code_until as int, escape_refs)
            =~= prev + (piece + escape_scan(chars@, i + 1, depth as int, code_until as int, escape_refs)));
        i = i + 1;
    }
    assert(escape_scan(chars@, n as int, depth as int, code_until as int, escape_refs) =~= Seq::<char>::empty());
    assert(result@ =~= escape_scan(chars@, 0, 0, 0, escape_refs));
    let t = count_trailing_backslashes(&result);
    if t % 2 == 1 {
        result.push(' ');
    }
    string_from_chars(&result)
}


// ---------------------------------------------------------------------------
// Lines.

/// Position of the first line feed at or after `i`, or the length of `s`.
pub open spec fn line_end(s: Seq<char>, i: int) -> int
    decreases s.len() - i,
{
    if 0 <= i < s.len() && s[i] != '\n' {
        line_end(s, i + 1)
    } else {
        i
    }
}

/// The lines of `s` from position `i` on, as std's `str::lines` gives them:
/// split at `\n`, a `\r` before the `\n` dropped, no empty line after a
/// final line feed.
pub open spec fn lines_from(s: Seq<char>, i: int) -> Seq<Seq<char>>
    decreases s.len() - i,
{
    if 0 <= i < s.len() {
        let e = line_end(s, i);
        let line = if e < s.len() && e > i && s[e - 1] == '\r' {
            s.subrange(i, e - 1)
        } else {
            s.subrange(i, e)
        };
        if i <= e < s.len() {
            seq![line] + lines_from(s, e + 1)
        } else {
            seq![line]
        }
    } else {
        Seq::empty()
    }
}

/// Each line of `lines` as a Typst line comment, with its line feed.
pub open spec fn commented(lines: Seq<Seq<char>>) -> Seq<char>
    decreases lines.len(),
{
    if lines.len() == 0 {
        Seq::empty()
    } else {
        "// "@ + lines[0] + seq!['\n'] + commented(lines.drop_first())
    }
}

pub open spec fn drop_final_newline(s: Seq<char>) -> Seq<char> {
    if s.len() > 0 && s.last() == '\n' {
        s.drop_last()
    } else {
        s
    }
}

pub proof fn lemma_line_end_bounds(s: Seq<char>, i: int)
    requires
        0 <= i <= s.len(),
    ensures
        i <= line_end(s, i) <= s.len(),
        line_end(s, i) < s.len() ==> s[line_end(s, i)] == '\n',
        forall|k: int| i <= k < line_end(s, i) ==> s[k] != '\n',
    decreases s.len() - i,
{
    if i < s.len() && s[i] != '\n' {
        lemma_line_end_bounds(s, i + 1);
    }
}

/// Appends every line of `content` as a line comment, then removes the final
/// line feed of the output.
fn push_commented_lines(out: &mut Vec<char>, content: &str)
    ensures
        final(out)@ == drop_final_newline(old(out)@ + commented(lines_from(content@, 0))),
{
    let s = to_chars(content);
    let n = s.len();
    let ghost start = out@;
    let mut i: usize = 0;
    while i < n
        invariant
            n == s@.len(),
            s@ == content@,
            i <= n,
            out@ + commented(lines_from(s@, i as int)) == start + commented(lines_from(s@, 0)),
        decreases n - i,
    {
        let mut e = i;
        proof {
            lemma_line_end_bounds(s@, i as int);
        }
        while e < n && s[e] != '\n'
            invariant
                n == s@.len(),
                i <= e <= n,
                line_end(s@, e as int) == line_end(s@, i as int),
            decreases n - e,
        {
            e = e + 1;
        }
        let line_stop = if e < n && e > i && s[e - 1] == '\r' {
            e - 1
        } else {
            e
        };
        let ghost prev = out@;
        let ghost line = s@.subrange(i as int, line_stop as int);
        push_str(out, "// ");
        let line_chars = slice_chars(&s, i, line_stop);
        push_chars(out, &line_chars);
        out.push('\n');
        let next = if e < n {
            e + 1
        } else {
            n
        };
        assert(lines_from(s@, n as int) =~= Seq::<Seq<char>>::empty());
        assert(lines_from(s@, i as int) == seq![line] + lines_from(s@, next as int));
        assert(commented(seq![line] + lines_from(s@, next as int)) == "// "@ + line + seq!['\n'] + commented(
            lines_from(s@, next as int),
        )) by {
            assert((seq![line] + lines_from(s@, next as int)).drop_first() =~= lines_from(s@, next as int));
        }
        assert(out@ =~= prev + ("// "@ + line + seq!['\n']));
        assert(out@ + commented(lines_from(s@, next as int)) =~= prev + commented(lines_from(s@, i as int)));
        i = next;
    }
    assert(lines_from(s@, i as int) =~= Seq::<Seq<char>>::empty());
    assert(out@ =~= start + commented(lines_from(s@, 0)));
    let len = out.len();
    if len > 0 && out[len - 1] == '\n' {
        out.pop();
    }
}

// ---------------------------------------------------------------------------
// Blocks.

pub open spec fn heading_prefix(depth: usize) -> Seq<char> {
    Seq::new(depth as nat, |i: int| '=').push(' ')
}

pub open spec fn enum_prefix(number: Option<usize>) -> Seq<char> {
    match number {
        Some(n) => decimal(n as nat) + ". "@,
        None => "+ "@,
    }
}

/// A block rendered unchanged.
pub open spec fn block_text(b: BlockModel) -> Seq<char> {
    match b {
        BlockModel::Paragraph(t) => t,
        BlockModel::Heading(depth, t) => heading_prefix(depth) + t,
        BlockModel::ListItem(t) => "- "@ + t,
        BlockModel::EnumItem(number, t) => enum_prefix(number) + t,
        BlockModel::TermItem(term, description) => "/ "@ + term + ": "@ + description,
        BlockModel::RawBlock(content) => content,
        BlockModel::Equation(_, content) => content,
        BlockModel::FuncCall(content) => content,
        BlockModel::Parbreak => Seq::empty(),
    }
}

/// If `t` starts with a label followed by whitespace, where the rest of the
/// paragraph starts.
pub open spec fn leading_label_rest(t: Seq<char>) -> Option<int> {
    match label_end(t, 0) {
        Some(e) => if e < t.len() && unicode_white_space(t[e]) {
            Some(skip_white(t, e))
        } else {
            None
        },
        None => None,
    }
}

/// Output after rendering a block as added or deleted.
///
/// The text goes into `#diff-added[...]` or `#diff-deleted[...]` after the
/// block's markup prefix. Labels stay outside the markup so that they attach
/// to the element they follow: a paragraph that is only a label is written
/// bare when added and dropped when deleted, and a label that opens an added
/// paragraph is written bare before the wrapped rest (a deleted paragraph is
/// wrapped whole, its label escaped). Code
/// (`FuncCall`) is written as is when added and as line comments when
/// deleted.
pub open spec fn added_or_deleted(out: Seq<char>, b: BlockModel, tag: DiffTag) -> Seq<char> {
    match b {
        BlockModel::Paragraph(t) => {
            if label_only(t) {
                if tag == DiffTag::Added {
                    out + trim(t)
                } else {
                    out
                }
            } else {
                match leading_label_rest(t) {
                    Some(r) => if tag == DiffTag::Added {
                        out + t.subrange(0, r) + wrapped(tag, t.subrange(r, t.len() as int))
                    } else {
                        out + wrapped(tag, t)
                    },
                    None => out + wrapped(tag, t),
                }
            }
        },
        BlockModel::Heading(depth, t) => out + heading_prefix(depth) + wrapped(tag, t),
        BlockModel::ListItem(t) => out + "- "@ + wrapped(tag, t),
        BlockModel::EnumItem(number, t) => out + enum_prefix(number) + wrapped(tag, t),
        BlockModel::TermItem(term, description) => out + "/ "@ + seq!['#'] + func_name_spec(tag) + seq!['[']
            + escape(term, tag == DiffTag::Deleted) + ": "@ + escape(description, tag == DiffTag::Deleted)
            + seq![']'],
        BlockModel::RawBlock(content) => out + wrapped(tag, content),
        BlockModel::Equation(_, content) => out + wrapped(tag, content),
        BlockModel::FuncCall(content) => if tag == DiffTag::Added {
            out + content
        } else {
            drop_final_newline(out + commented(lines_from(content, 0)))
        },
        BlockModel::Parbreak => out,
    }
}

/// Write the heading prefix (`= `, `== `, etc.).
fn write_heading_prefix(depth: usize, out: &mut Vec<char>)
    ensures
        final(out)@ == old(out)@ + heading_prefix(depth),
{
    let ghost start = out@;
    let mut i: usize = 0;
    while i < depth
        invariant
            i <= depth,
            out@ == start + Seq::new(i as nat, |k: int| '='),
        decreases depth - i,
    {
        out.push('=');
        i = i + 1;
        assert(out@ =~= start + Seq::new(i as nat, |k: int| '='));
    }
    out.push(' ');
    assert(out@ =~= start + heading_prefix(depth));
}

/// Write the enum item prefix (`+ ` for auto, `{n}. ` for explicit).
fn write_enum_prefix(number: Option<usize>, out: &mut Vec<char>)
    ensures
        final(out)@ == old(out)@ + enum_prefix(number),
{
    match number {
        Some(n) => {
            push_decimal(out, n);
            push_str(out, ". ");
        },
        None => push_str(out, "+ "),
    }
}

/// Render a block unchanged.
fn render_block(block: &Block, out: &mut Vec<char>)
    ensures
        final(out)@ == old(out)@ + block_text(block_model(*block)),
{
    let ghost start = out@;
    match block {
        Block::Paragraph { source_text } => push_str(out, source_text.as_str()),
        Block::Heading { depth, body_text } => {
            write_heading_prefix(*depth, out);
            push_str(out, body_text.as_str());
        },
        Block::ListItem { body_text } => {
            push_str(out, "- ");
            push_str(out, body_text.as_str());
        },
        Block::EnumItem { number, body_text } => {
            write_enum_prefix(*number, out);
            push_str(out, body_text.as_str());
        },
        Block::TermItem { term, description } => {
            push_str(out, "/ ");
            push_str(out, term.as_str());
            push_str(out, ": ");
            push_str(out, description.as_str());
        },
        Block::RawBlock { content } => push_str(out, content.as_str()),
        Block::Equation { content, .. } => push_str(out, content.as_str()),
        Block::FuncCall { content } => push_str(out, content.as_str()),
        Block::Parbreak => {},
    }
    assert(out@ =~= start + block_text(block_model(*block)));
}

/// Returns true if the text consists only of a Typst label `<...>`.
pub fn is_label_only(text: &str) -> (r: bool)
    ensures
        r == label_only(text@),
{
    TypstLabel::is_only(text)
}

/// Appends `#func[escaped content]`.
fn push_wrapped(out: &mut Vec<char>, tag: DiffTag, content: &str)
    ensures
        final(out)@ == old(out)@ + wrapped(tag, content@),
{
    let ghost start = out@;
    out.push('#');
    push_str(out, tag.func_name());
    out.push('[');
    let escaped = escape_content(content, tag == DiffTag::Deleted);
    push_str(out, escaped.as_str());
    out.push(']');
    assert(out@ =~= start + wrapped(tag, content@));
}

/// If the text starts with a label followed by whitespace, the position
/// where the rest starts.
fn leading_label(t: &Vec<char>) -> (r: Option<usize>)
    ensures
        r matches Some(x) ==> leading_label_rest(t@) == Some(x as int) && x <= t@.len(),
        r is None ==> leading_label_rest(t@) is None,
{
    if t.len() == 0 {
        return None;
    }
    match TypstLabel::end(t, 0) {
        Some(e) => {
            proof {
                lemma_label_end_bounds(t@, 0);
            }
            if e < t.len() && is_white_space(t[e]) {
                proof {
                    lemma_skip_white_bounds(t@, e as int);
                }
                Some(find_non_white(t, e))
            } else {
                None
            }
        },
        None => None,
    }
}

/// Render a block wrapped in #diff-added[...] or #diff-deleted[...].
fn render_added_or_deleted(block: &Block, tag: DiffTag, out: &mut Vec<char>)
    ensures
        final(out)@ == added_or_deleted(old(out)@, block_model(*block), tag),
{
    let ghost start = out@;
    let escape_refs = tag == DiffTag::Deleted;
    let func = tag.func_name();
    match block {
        Block::Paragraph { source_text } => {
            // Labels must be output bare so they attach to the preceding element.
            // Deleted labels are suppressed to avoid duplicates with added labels.
            if is_label_only(source_text.as_str()) {
                if tag == DiffTag::Added {
                    let chars = to_chars(source_text.as_str());
                    let trimmed = trim_chars(&chars);
                    push_chars(out, &trimmed);
                }
                return;
            }
            // A label that opens an added paragraph stays outside the markup.
            let chars = to_chars(source_text.as_str());
            match leading_label(&chars) {
                Some(r) if tag == DiffTag::Added => {
                    let label = slice_chars(&chars, 0, r);
                    push_chars(out, &label);
                    let rest = string_from_chars(&slice_chars(&chars, r, chars.len()));
                    push_wrapped(out, tag, rest.as_str());
                },
                _ => push_wrapped(out, tag, source_text.as_str()),
            }
        },
        Block::Heading { depth, body_text } => {
            write_heading_prefix(*depth, out);
            push_wrapped(out, tag, body_text.as_str());
        },
        Block::ListItem { body_text } => {
            push_str(out, "- ");
            push_wrapped(out, tag, body_text.as_str());
        },
        Block::EnumItem { number, body_text } => {
            write_enum_prefix(*number, out);
            push_wrapped(out, tag, body_text.as_str());
        },
        Block::TermItem { term, description } => {
            push_str(out, "/ ");
            out.push('#');
            push_str(out, func);
            out.push('[');
            let t = escape_content(term.as_str(), escape_refs);
            push_str(out, t.as_str());
            push_str(out, ": ");
            let d = escape_content(description.as_str(), escape_refs);
            push_str(out, d.as_str());
            out.push(']');
        },
        // Raw blocks and equations are content-mode; they can be wrapped.
        Block::RawBlock { content } => push_wrapped(out, tag, content.as_str()),
        Block::Equation { content, .. } => push_wrapped(out, tag, content.as_str()),
        // FuncCall represents code-mode expressions (#import, #show, etc.).
        // Wrapping them in a content block would change their semantics,
        // so we output added code as-is and deleted code as comments.
        Block::FuncCall { content } => {
            if tag == DiffTag::Added {
                push_str(out, content.as_str());
            } else {
                push_commented_lines(out, content.as_str());
            }
        },
        Block::Parbreak => {},
    }
    assert(out@ =~= added_or_deleted(start, block_model(*block), tag));
}

// ---------------------------------------------------------------------------
// Modified blocks.

/// Markup prefix of a modified block of the given kind.
pub open spec fn kind_prefix(kind: BlockKind) -> Seq<char> {
    match kind {
        BlockKind::Heading { depth } => heading_prefix(depth),
        BlockKind::ListItem => "- "@,
        BlockKind::EnumItem { number } => enum_prefix(number),
        BlockKind::TermItem => "/ "@,
        _ => Seq::empty(),
    }
}

/// Rendering state of a span sequence: output so far, and whether the last
/// span written was a `#diff-...[...]` call.
pub type SpanState = (Seq<char>, bool);

/// One span rendered. Empty spans are skipped. Equal text follows as is,
/// except that a zero-width space separates it from a preceding diff call
/// when it starts with `(` or `[` (which Typst would read as more arguments
/// of the call). A deleted label is dropped and an inserted label written
/// bare.
pub open spec fn span_step(st: SpanState, span: SpanModel) -> SpanState {
    let (out, prev_was_diff) = st;
    let (tag, text) = span;
    if text.len() == 0 {
        st
    } else {
        match tag {
            SpanTag::Equal => (
                out + (if prev_was_diff && (text[0] == '(' || text[0] == '[') {
                    seq!['\u{200B}']
                } else {
                    Seq::empty()
                }) + text,
                false,
            ),
            SpanTag::Deleted => if label_only(text) {
                (out, false)
            } else {
                (out + "#diff-deleted["@ + escape(text, true) + seq![']'], true)
            },
            SpanTag::Inserted => if label_only(text) {
                (out + text, false)
            } else {
                (out + "#diff-added["@ + escape(text, false) + seq![']'], true)
            },
        }
    }
}

pub open spec fn spans_upto(st: SpanState, spans: Seq<SpanModel>, k: int) -> SpanState
    decreases k,
{
    if k <= 0 {
        st
    } else {
        span_step(spans_upto(st, spans, k - 1), spans[k - 1])
    }
}

/// Output after rendering a modified block.
pub open spec fn modified(out: Seq<char>, kind: BlockKind, spans: Seq<SpanModel>) -> Seq<char> {
    spans_upto((out + kind_prefix(kind), false), spans, spans.len() as int).0
}

fn starts_with_open(text: &str) -> (r: bool)
    requires
        text@.len() > 0,
    ensures
        r == (text@[0] == '(' || text@[0] == '['),
{
    let chars = to_chars(text);
    chars[0] == '(' || chars[0] == '['
}

/// Render diff spans with markup for deleted/inserted text.
fn render_spans(spans: &Vec<DiffSpan>, out: &mut Vec<char>)
    ensures
        final(out)@ == spans_upto((old(out)@, false), spans_model(spans@), spans@.len() as int).0,
{
    let ghost start = out@;
    let ghost sm = spans_model(spans@);
    let mut prev_was_diff = false;
    let n = spans.len();
    let mut i: usize = 0;
    while i < n
        invariant
            n == spans@.len(),
            sm == spans_model(spans@),
            i <= n,
            (out@, prev_was_diff) == spans_upto((start, false), sm, i as int),
        decreases n - i,
    {
        let span = &spans[i];
        let ghost st = (out@, prev_was_diff);
        assert(sm[i as int] == (span.tag, span.text@));
        let text = span.text.as_str();
        if text.unicode_len() == 0 {
            i = i + 1;
            continue;
        }
        match span.tag {
            SpanTag::Equal => {
                // After `#diff-added[...]` or `#diff-deleted[...]`, a `(` or `[`
                // would be parsed as function arguments by Typst. Insert a
                // zero-width space to break the call syntax.
                if prev_was_diff && starts_with_open(text) {
                    out.push('\u{200B}');
                }
                push_str(out, text);
                prev_was_diff = false;
            },
            SpanTag::Deleted => {
                if !is_label_only(text) {
                    push_str(out, "#diff-deleted[");
                    let escaped = escape_content(text, true);
                    push_str(out, escaped.as_str());
                    out.push(']');
                    prev_was_diff = true;
                } else {
                    prev_was_diff = false;
                }
            },
            SpanTag::Inserted => {
                if is_label_only(text) {
                    push_str(out, text);
                    prev_was_diff = false;
                } else {
                    push_str(out, "#diff-added[");
                    let escaped = escape_content(text, false);
                    push_str(out, escaped.as_str());
                    out.push(']');
                    prev_was_diff = true;
                }
            },
        }
        assert((out@, prev_was_diff) =~= span_step(st, sm[i as int]));
        i = i + 1;
    }
}

/// Render a modified block with per-span diff markup.
fn render_modified(kind: &BlockKind, spans: &Vec<DiffSpan>, out: &mut Vec<char>)
    ensures
        final(out)@ == modified(old(out)@, *kind, spans_model(spans@)),
{
    let ghost start = out@;
    match kind {
        BlockKind::Heading { depth } => write_heading_prefix(*depth, out),
        BlockKind::ListItem => push_str(out, "- "),
        BlockKind::EnumItem { number } => write_enum_prefix(*number, out),
        BlockKind::TermItem => push_str(out, "/ "),
        BlockKind::Paragraph => {},
        BlockKind::Atomic | BlockKind::Parbreak => {},
    }
    assert(out@ =~= start + kind_prefix(*kind));
    render_spans(spans, out);
}

// ---------------------------------------------------------------------------
// Documents.

/// Output after rendering one result, followed by a line feed and a blank
/// line (paragraph breaks are not diffed, so every block is separated from
/// the next by one).
pub open spec fn render_result(out: Seq<char>, r: ResultModel) -> Seq<char> {
    let o = match r {
        ResultModel::Unchanged(b) => out + block_text(b),
        ResultModel::Added(b) => added_or_deleted(out, b, DiffTag::Added),
        ResultModel::Deleted(b) => added_or_deleted(out, b, DiffTag::Deleted),
        ResultModel::Modified(kind, spans) => modified(out, kind, spans),
    };
    o + seq!['\n', '\n']
}

/// The document after the preamble and the first `k` results.
pub open spec fn render_upto(results: Seq<ResultModel>, k: int) -> Seq<char>
    decreases k,
{
    if k <= 0 {
        PREAMBLE@ + seq!['\n']
    } else {
        render_result(render_upto(results, k - 1), results[k - 1])
    }
}

/// The rendered document.
pub open spec fn spec_render(results: Seq<ResultModel>) -> Seq<char> {
    render_upto(results, results.len() as int)
}

/// Render a list of diff results into a compilable Typst source string.
pub fn render(results: &[DiffResult]) -> (s: String)
    ensures
        s@ == spec_render(results_model(results@)),
        // The output always starts with the markup function definitions.
        s@.take(PREAMBLE@.len() as int) == PREAMBLE@,
{
    proof {
        lemma_render_starts_with_preamble(results_model(results@));
    }
    let ghost rm = results_model(results@);
    let mut out: Vec<char> = Vec::new();
    push_str(&mut out, PREAMBLE);
    out.push('\n');
    assert(out@ =~= render_upto(rm, 0));
    let n = results.len();
    let mut i: usize = 0;
    while i < n
        invariant
            n == results@.len(),
            rm == results_model(results@),
            i <= n,
            out@ == render_upto(rm, i as int),
        decreases n - i,
    {
        let ghost prev = out@;
        assert(rm[i as int] == result_model(results@[i as int]));
        match &results[i] {
            DiffResult::Unchanged(block) => {
                render_block(block, &mut out);
                out.push('\n');
            },
            DiffResult::Added(block) => {
                render_added_or_deleted(block, DiffTag::Added, &mut out);
                out.push('\n');
            },
            DiffResult::Deleted(block) => {
                render_added_or_deleted(block, DiffTag::Deleted, &mut out);
                out.push('\n');
            },
            DiffResult::Modified { kind, spans } => {
                render_modified(kind, spans, &mut out);
                out.push('\n');
            },
        }
        // Always add a blank line between blocks (paragraph break).
        // Parbreaks are filtered out before diffing, so we insert them
        // unconditionally here instead.
        out.push('\n');
        assert(out@ =~= render_result(prev, rm[i as int]));
        i = i + 1;
    }
    string_from_chars(&out)
}


// ---------------------------------------------------------------------------
// Laws.

/// Law: escaped content never ends in an odd run of backslashes, so the `]`
/// that closes the content block is never escaped.
pub proof fn lemma_escape_closes(s: Seq<char>, escape_refs: bool)
    ensures
        trailing_backslashes(escape(s, escape_refs)) % 2 == 0,
{
    let r = escape_scan(s, 0, 0, 0, escape_refs);
    if trailing_backslashes(r) % 2 == 1 {
        assert(r.push(' ').last() == ' ');
    }
}

/// `r` keeps all of `out` but possibly its last character.
pub open spec fn keeps_all_but_last(out: Seq<char>, r: Seq<char>) -> bool {
    out.len() >= 1 ==> r.len() >= out.len() - 1 && r.take(out.len() - 1) == out.take(out.len() - 1)
}

pub proof fn lemma_append_keeps(out: Seq<char>, piece: Seq<char>)
    ensures
        keeps_all_but_last(out, out + piece),
        keeps_all_but_last(out, drop_final_newline(out + piece)),
{
    if out.len() >= 1 {
        assert((out + piece).take(out.len() - 1) =~= out.take(out.len() - 1));
        assert(drop_final_newline(out + piece).take(out.len() - 1) =~= out.take(out.len() - 1));
    }
}

pub proof fn lemma_added_or_deleted_keeps(out: Seq<char>, b: BlockModel, tag: DiffTag)
    ensures
        keeps_all_but_last(out, added_or_deleted(out, b, tag)),
{
    let r = added_or_deleted(out, b, tag);
    match b {
        BlockModel::Paragraph(t) => {
            if label_only(t) {
                if tag == DiffTag::Added {
                    lemma_append_keeps(out, trim(t));
                } else {
                    lemma_append_keeps(out, Seq::empty());
                    assert(out + Seq::<char>::empty() =~= out);
                }
            } else {
                match leading_label_rest(t) {
                    Some(x) => if tag == DiffTag::Added {
                        lemma_append_keeps(out, t.subrange(0, x) + wrapped(tag, t.subrange(x, t.len() as int)));
                        assert(r =~= out + (t.subrange(0, x) + wrapped(tag, t.subrange(x, t.len() as int))));
                    } else {
                        lemma_append_keeps(out, wrapped(tag, t));
                    },
                    None => lemma_append_keeps(out, wrapped(tag, t)),
                }
            }
        },
        BlockModel::Heading(depth, t) => {
            lemma_append_keeps(out, heading_prefix(depth) + wrapped(tag, t));
            assert(r =~= out + (heading_prefix(depth) + wrapped(tag, t)));
        },
        BlockModel::ListItem(t) => {
            lemma_append_keeps(out, "- "@ + wrapped(tag, t));
            assert(r =~= out + ("- "@ + wrapped(tag, t)));
        },
        BlockModel::EnumItem(number, t) => {
            lemma_append_keeps(out, enum_prefix(number) + wrapped(tag, t));
            assert(r =~= out + (enum_prefix(number) + wrapped(tag, t)));
        },
        BlockModel::TermItem(term, description) => {
            let piece = "/ "@ + seq!['#'] + func_name_spec(tag) + seq!['['] + escape(term, tag == DiffTag::Deleted)
                + ": "@ + escape(description, tag == DiffTag::Deleted) + seq![']'];
            lemma_append_keeps(out, piece);
            assert(r =~= out + piece);
        },
        BlockModel::RawBlock(content) => lemma_append_keeps(out, wrapped(tag, content)),
        BlockModel::Equation(_, content) => lemma_append_keeps(out, wrapped(tag, content)),
        BlockModel::FuncCall(content) => {
            lemma_append_keeps(out, content);
            lemma_append_keeps(out, commented(lines_from(content, 0)));
        },
        BlockModel::Parbreak => {
            lemma_append_keeps(out, Seq::empty());
            assert(out + Seq::<char>::empty() =~= out);
        },
    }
}

pub proof fn lemma_spans_extend(st: SpanState, spans: Seq<SpanModel>, k: int)
    requires
        0 <= k <= spans.len(),
    ensures
        spans_upto(st, spans, k).0.len() >= st.0.len(),
        spans_upto(st, spans, k).0.take(st.0.len() as int) == st.0,
    decreases k,
{
    if k > 0 {
        lemma_spans_extend(st, spans, k - 1);
        let p = spans_upto(st, spans, k - 1);
        let q = span_step(p, spans[k - 1]);
        assert(q.0.len() >= p.0.len());
        assert(q.0.take(p.0.len() as int) =~= p.0);
        assert(q.0.take(st.0.len() as int) =~= p.0.take(st.0.len() as int));
    } else {
        assert(st.0.take(st.0.len() as int) =~= st.0);
    }
}

pub proof fn lemma_render_result_keeps(out: Seq<char>, r: ResultModel)
    ensures
        keeps_all_but_last(out, render_result(out, r)),
        render_result(out, r).len() + 1 >= out.len() + 2,
{
    let o = match r {
        ResultModel::Unchanged(b) => out + block_text(b),
        ResultModel::Added(b) => added_or_deleted(out, b, DiffTag::Added),
        ResultModel::Deleted(b) => added_or_deleted(out, b, DiffTag::Deleted),
        ResultModel::Modified(kind, spans) => modified(out, kind, spans),
    };
    match r {
        ResultModel::Unchanged(b) => lemma_append_keeps(out, block_text(b)),
        ResultModel::Added(b) => lemma_added_or_deleted_keeps(out, b, DiffTag::Added),
        ResultModel::Deleted(b) => lemma_added_or_deleted_keeps(out, b, DiffTag::Deleted),
        ResultModel::Modified(kind, spans) => {
            lemma_spans_extend((out + kind_prefix(kind), false), spans, spans.len() as int);
            assert((out + kind_prefix(kind)).take(out.len() as int) =~= out);
            if out.len() >= 1 {
                assert(o.take(out.len() - 1) =~= (out + kind_prefix(kind)).take(out.len() - 1));
                assert(out.take(out.len() - 1) =~= (out + kind_prefix(kind)).take(out.len() - 1));
            }
        },
    }
    let res = o + seq!['\n', '\n'];
    if out.len() >= 1 {
        assert(res.take(out.len() - 1) =~= o.take(out.len() - 1));
    }
}

pub proof fn lemma_render_upto_preamble(results: Seq<ResultModel>, k: int)
    requires
        0 <= k <= results.len(),
    ensures
        render_upto(results, k).len() >= PREAMBLE@.len() + 1,
        render_upto(results, k).take(PREAMBLE@.len() as int) == PREAMBLE@,
    decreases k,
{
    if k == 0 {
        assert((PREAMBLE@ + seq!['\n']).take(PREAMBLE@.len() as int) =~= PREAMBLE@);
    } else {
        lemma_render_upto_preamble(results, k - 1);
        let out = render_upto(results, k - 1);
        lemma_render_result_keeps(out, results[k - 1]);
        let r = render_upto(results, k);
        assert(r.take(out.len() - 1).take(PREAMBLE@.len() as int) =~= r.take(PREAMBLE@.len() as int));
        assert(out.take(out.len() - 1).take(PREAMBLE@.len() as int) =~= out.take(PREAMBLE@.len() as int));
    }
}

/// Law: every rendered document starts with the definitions of
/// `diff-added` and `diff-deleted`, whatever the results.
pub proof fn lemma_render_starts_with_preamble(results: Seq<ResultModel>)
    ensures
        spec_render(results).len() > PREAMBLE@.len(),
        spec_render(results).take(PREAMBLE@.len() as int) == PREAMBLE@,
{
    lemma_render_upto_preamble(results, results.len() as int);
}

/// A result whose rendering removes the last character written before it:
/// deleted code with no lines at all.
pub open spec fn eats_previous(r: ResultModel) -> bool {
    r matches ResultModel::Deleted(BlockModel::FuncCall(content)) && content.len() == 0
}

/// The text one result adds to a document that ends with a line feed:
/// for deleted code without lines, which takes back that line feed, a
/// single line feed (the document then ends with a blank line); for any
/// other result, its rendering.
pub open spec fn chunk(r: ResultModel) -> Seq<char> {
    if eats_previous(r) {
        seq!['\n']
    } else {
        render_result(Seq::empty(), r)
    }
}

/// `s` ends with a blank line.
pub open spec fn ends_blank(s: Seq<char>) -> bool {
    s.len() >= 2 && s[s.len() - 2] == '\n' && s[s.len() - 1] == '\n'
}

pub proof fn lemma_spans_upto_prefix(x: Seq<char>, p: Seq<char>, f: bool, spans: Seq<SpanModel>, k: int)
    requires
        0 <= k <= spans.len(),
    ensures
        spans_upto((x + p, f), spans, k).0 == x + spans_upto((p, f), spans, k).0,
        spans_upto((x + p, f), spans, k).1 == spans_upto((p, f), spans, k).1,
    decreases k,
{
    if k > 0 {
        lemma_spans_upto_prefix(x, p, f, spans, k - 1);
        let q = spans_upto((p, f), spans, k - 1);
        let (tag, text) = spans[k - 1];
        if text.len() > 0 {
            match tag {
                SpanTag::Equal => {
                    let z = if q.1 && (text[0] == '(' || text[0] == '[') {
                        seq!['\u{200B}']
                    } else {
                        Seq::empty()
                    };
                    assert(x + q.0 + z + text =~= x + (q.0 + z + text));
                },
                SpanTag::Deleted => {
                    assert(x + q.0 + "#diff-deleted["@ + escape(text, true) + seq![']'] =~= x + (q.0
                        + "#diff-deleted["@ + escape(text, true) + seq![']']));
                },
                SpanTag::Inserted => {
                    assert(x + q.0 + text =~= x + (q.0 + text));
                    assert(x + q.0 + "#diff-added["@ + escape(text, false) + seq![']'] =~= x + (q.0
                        + "#diff-added["@ + escape(text, false) + seq![']']));
                },
            }
        }
    }
}

/// Rendering a result appends its chunk to what was written before, unless
/// it is deleted code without lines.
pub proof fn lemma_render_result_appends(out: Seq<char>, r: ResultModel)
    requires
        !eats_previous(r) || (out.len() > 0 && out.last() == '\n'),
    ensures
        render_result(out, r) == out + chunk(r),
        ends_blank(render_result(out, r)),
        !eats_previous(r) ==> ends_blank(chunk(r)),
{
    let e = Seq::<char>::empty();
    if eats_previous(r) {
        assert(lines_from(Seq::<char>::empty(), 0) =~= Seq::<Seq<char>>::empty());
        assert(out + commented(Seq::<Seq<char>>::empty()) =~= out);
        assert(out.drop_last() + seq!['\n', '\n'] =~= out + seq!['\n']);
        return;
    }
    match r {
        ResultModel::Unchanged(b) => {
            assert(e + block_text(b) =~= block_text(b));
            assert(out + block_text(b) + seq!['\n', '\n'] =~= out + (block_text(b) + seq!['\n', '\n']));
        },
        ResultModel::Modified(kind, spans) => {
            lemma_spans_upto_prefix(out, kind_prefix(kind), false, spans, spans.len() as int);
            assert(out + kind_prefix(kind) == out + (e + kind_prefix(kind))) by {
                assert(e + kind_prefix(kind) =~= kind_prefix(kind));
            }
            let m = spans_upto((e + kind_prefix(kind), false), spans, spans.len() as int).0;
            assert(out + m + seq!['\n', '\n'] =~= out + (m + seq!['\n', '\n']));
        },
        ResultModel::Added(b) => {
            lemma_added_or_deleted_appends(out, b, DiffTag::Added);
            let a = added_or_deleted(e, b, DiffTag::Added);
            assert(out + a + seq!['\n', '\n'] =~= out + (a + seq!['\n', '\n']));
        },
        ResultModel::Deleted(b) => {
            lemma_added_or_deleted_appends(out, b, DiffTag::Deleted);
            let a = added_or_deleted(e, b, DiffTag::Deleted);
            assert(out + a + seq!['\n', '\n'] =~= out + (a + seq!['\n', '\n']));
        },
    }
}

pub proof fn lemma_lines_from_nonempty(s: Seq<char>)
    requires
        s.len() > 0,
    ensures
        lines_from(s, 0).len() > 0,
{
}

pub proof fn lemma_commented_ends(lines: Seq<Seq<char>>)
    requires
        lines.len() > 0,
    ensures
        commented(lines).len() > 0,
        commented(lines).last() == '\n',
    decreases lines.len(),
{
    let x = "// "@ + lines[0] + seq!['\n'];
    let rest = commented(lines.drop_first());
    if lines.len() > 1 {
        lemma_commented_ends(lines.drop_first());
        assert((x + rest).last() == rest.last());
    } else {
        assert(lines.drop_first().len() == 0);
        assert(x + rest =~= x);
    }
}

proof fn lemma_added_or_deleted_appends(out: Seq<char>, b: BlockModel, tag: DiffTag)
    requires
        !(tag == DiffTag::Deleted && eats_previous(ResultModel::Deleted(b))),
    ensures
        added_or_deleted(out, b, tag) == out + added_or_deleted(Seq::empty(), b, tag),
{
    let e = Seq::<char>::empty();
    match b {
        BlockModel::FuncCall(content) => {
            if tag == DiffTag::Deleted {
                lemma_lines_from_nonempty(content);
                let c = commented(lines_from(content, 0));
                lemma_commented_ends(lines_from(content, 0));
                assert((out + c).last() == '\n');
                assert((e + c) =~= c);
                assert((out + c).drop_last() =~= out + c.drop_last());
            } else {
                assert(out + content =~= out + (e + content));
            }
        },
        BlockModel::Paragraph(t) => {
            assert(e + trim(t) =~= trim(t));
            assert(e + wrapped(tag, t) =~= wrapped(tag, t));
            assert(out =~= out + e);
            match leading_label_rest(t) {
                Some(x) => {
                    let w = wrapped(tag, t.subrange(x, t.len() as int));
                    assert(out + t.subrange(0, x) + w =~= out + (e + t.subrange(0, x) + w));
                },
                None => {},
            }
        },
        BlockModel::Heading(d, t) => {
            assert(out + heading_prefix(d) + wrapped(tag, t) =~= out + (e + heading_prefix(d) + wrapped(tag, t)));
        },
        BlockModel::ListItem(t) => {
            assert(out + "- "@ + wrapped(tag, t) =~= out + (e + "- "@ + wrapped(tag, t)));
        },
        BlockModel::EnumItem(n, t) => {
            assert(out + enum_prefix(n) + wrapped(tag, t) =~= out + (e + enum_prefix(n) + wrapped(tag, t)));
        },
        BlockModel::TermItem(term, description) => {
            let piece = "/ "@ + seq!['#'] + func_name_spec(tag) + seq!['['] + escape(term, tag == DiffTag::Deleted)
                + ": "@ + escape(description, tag == DiffTag::Deleted) + seq![']'];
            assert(added_or_deleted(out, b, tag) =~= out + piece);
            assert(added_or_deleted(e, b, tag) =~= piece);
        },
        BlockModel::RawBlock(c) => {
            assert(e + wrapped(tag, c) =~= wrapped(tag, c));
        },
        BlockModel::Equation(_, c) => {
            assert(e + wrapped(tag, c) =~= wrapped(tag, c));
        },
        BlockModel::Parbreak => {
            assert(out =~= out + e);
        },
    }
}

proof fn lemma_render_upto_prefix(a: Seq<ResultModel>, b: Seq<ResultModel>, k: int)
    requires
        0 <= k <= a.len(),
    ensures
        render_upto(a + b, k) == render_upto(a, k),
    decreases k,
{
    if k > 0 {
        lemma_render_upto_prefix(a, b, k - 1);
        assert((a + b)[k - 1] == a[k - 1]);
    }
}

proof fn lemma_render_upto_ends(rs: Seq<ResultModel>, k: int)
    requires
        0 <= k <= rs.len(),
    ensures
        render_upto(rs, k).len() > 0,
        render_upto(rs, k).last() == '\n',
    decreases k,
{
    if k > 0 {
        lemma_render_upto_ends(rs, k - 1);
    }
}

proof fn lemma_render_upto_concat(a: Seq<ResultModel>, b: Seq<ResultModel>, k: int)
    requires
        0 <= k <= b.len(),
    ensures
        render_upto(a + b, a.len() + k) == render_upto(a, a.len() as int) + render_upto(b, k).subrange(
            (PREAMBLE@.len() + 1) as int,
            render_upto(b, k).len() as int,
        ),
    decreases k,
{
    lemma_render_upto_preamble(b, k);
    if k == 0 {
        lemma_render_upto_prefix(a, b, a.len() as int);
        assert(render_upto(b, 0).subrange((PREAMBLE@.len() + 1) as int, render_upto(b, 0).len() as int) =~= Seq::<char>::empty());
        assert(render_upto(a, a.len() as int) + Seq::<char>::empty() =~= render_upto(a, a.len() as int));
    } else {
        lemma_render_upto_concat(a, b, k - 1);
        lemma_render_upto_preamble(b, k - 1);
        assert((a + b)[a.len() + k - 1] == b[k - 1]);
        let prev = render_upto(a + b, a.len() + k - 1);
        let pb = render_upto(b, k - 1);
        lemma_render_upto_ends(a + b, a.len() + k - 1);
        lemma_render_upto_ends(b, k - 1);
        lemma_render_result_appends(prev, b[k - 1]);
        lemma_render_result_appends(pb, b[k - 1]);
        let c = chunk(b[k - 1]);
        let n = (PREAMBLE@.len() + 1) as int;
        assert((pb + c).subrange(n, (pb + c).len() as int) =~= pb.subrange(n, pb.len() as int) + c);
        assert(render_upto(a, a.len() as int) + pb.subrange(n, pb.len() as int) + c =~= render_upto(a, a.len() as int) + (
        pb.subrange(n, pb.len() as int) + c));
    }
}

/// Law: rendering is made of chunks. The document of no results is the
/// preamble and a line feed; the document of two runs of results is the
/// document of the first followed by the body of the second (what follows
/// the preamble and its line feed); every rendered document with a result
/// ends with a blank line, and so does the chunk of every result but
/// deleted code without lines (whose chunk is a line feed put back in place
/// of the one it removes).
pub proof fn lemma_render_concat(a: Seq<ResultModel>, b: Seq<ResultModel>)
    ensures
        spec_render(Seq::empty()) == PREAMBLE@ + seq!['\n'],
        spec_render(a + b) == spec_render(a) + spec_render(b).subrange(
            (PREAMBLE@.len() + 1) as int,
            spec_render(b).len() as int,
        ),
        b.len() > 0 ==> ends_blank(spec_render(b)),
        forall|i: int| 0 <= i < b.len() && !eats_previous(#[trigger] b[i]) ==> ends_blank(chunk(b[i])),
{
    lemma_render_upto_concat(a, b, b.len() as int);
    assert((a + b).len() == a.len() + b.len());
    if b.len() > 0 {
        lemma_render_upto_ends(b, b.len() - 1);
        lemma_render_result_appends(render_upto(b, b.len() - 1), b[b.len() - 1]);
    }
    assert forall|i: int| 0 <= i < b.len() && !eats_previous(#[trigger] b[i]) implies ends_blank(chunk(b[i])) by {
        lemma_render_result_appends(Seq::empty(), b[i]);
    }
}

/// Law: a modified block whose spans are all equal renders as the block
/// itself renders unchanged, when the spans spell the block's diff text.
pub proof fn lemma_all_equal_modified(out: Seq<char>, b: BlockModel, spans: Seq<SpanModel>)
    requires
        !spec_is_atomic(b),
        forall|i: int| 0 <= i < spans.len() ==> (#[trigger] spans[i]).0 == SpanTag::Equal,
        spec_diff_text(b) == Some(span_texts(spans)),
    ensures
        modified(out, spec_kind(b), spans) == out + block_text(b),
{
    lemma_equal_spans_upto(out + kind_prefix(spec_kind(b)), spans, spans.len() as int);
    assert(spans.take(spans.len() as int) =~= spans);
    let t = span_texts(spans);
    match b {
        BlockModel::TermItem(term, description) => {
            assert(out + kind_prefix(spec_kind(b)) + t =~= out + block_text(b));
        },
        BlockModel::Heading(..) => {
            assert(out + kind_prefix(spec_kind(b)) + t =~= out + block_text(b));
        },
        BlockModel::EnumItem(..) => {
            assert(out + kind_prefix(spec_kind(b)) + t =~= out + block_text(b));
        },
        BlockModel::ListItem(..) => {
            assert(out + kind_prefix(spec_kind(b)) + t =~= out + block_text(b));
        },
        BlockModel::Paragraph(..) => {
            assert(out + kind_prefix(spec_kind(b)) + t =~= out + block_text(b));
        },
        _ => {},
    }
}

/// Law: a modified block whose only span is one equal span of its own
/// text renders exactly as the block renders unchanged.
pub proof fn lemma_single_equal_modified(out: Seq<char>, b: BlockModel)
    requires
        !spec_is_atomic(b),
        spec_diff_text(b) is Some,
    ensures
        modified(out, spec_kind(b), seq![(SpanTag::Equal, spec_diff_text(b)->0)]) == out + block_text(b),
        render_result(out, ResultModel::Modified(spec_kind(b), seq![(SpanTag::Equal, spec_diff_text(b)->0)]))
            == render_result(out, ResultModel::Unchanged(b)),
{
    let t = spec_diff_text(b)->0;
    let spans = seq![(SpanTag::Equal, t)];
    assert(spans.drop_last() =~= Seq::<SpanModel>::empty());
    assert(span_texts(Seq::<SpanModel>::empty()) =~= Seq::<char>::empty());
    assert(span_texts(spans) =~= t);
    lemma_all_equal_modified(out, b, spans);
}

proof fn lemma_equal_spans_upto(x: Seq<char>, spans: Seq<SpanModel>, k: int)
    requires
        0 <= k <= spans.len(),
        forall|i: int| 0 <= i < spans.len() ==> (#[trigger] spans[i]).0 == SpanTag::Equal,
    ensures
        spans_upto((x, false), spans, k) == (x + span_texts(spans.take(k)), false),
    decreases k,
{
    if k == 0 {
        assert(spans.take(0) =~= Seq::<SpanModel>::empty());
        assert(x + Seq::<char>::empty() =~= x);
    } else {
        lemma_equal_spans_upto(x, spans, k - 1);
        assert(spans.take(k).drop_last() =~= spans.take(k - 1));
        assert(spans[k - 1].0 == SpanTag::Equal);
        let t = spans[k - 1].1;
        if t.len() == 0 {
            assert(x + span_texts(spans.take(k - 1)) + t =~= x + span_texts(spans.take(k - 1)));
        }
        assert(x + span_texts(spans.take(k - 1)) + t =~= x + (span_texts(spans.take(k - 1)) + t));
    }
}

/// Every `@` and `<` of `r` comes right after a backslash.
pub open spec fn refs_escaped(r: Seq<char>) -> bool {
    forall|k: int| 0 <= k < r.len() && (r[k] == '@' || r[k] == '<') ==> k > 0 && #[trigger] r[k - 1] == '\\'
}

proof fn lemma_escape_scan_refs(s: Seq<char>, i: int, depth: int, code_until: int)
    requires
        0 <= code_until <= i,
        !s.contains('#'),
    ensures
        refs_escaped(escape_scan(s, i, depth, code_until, true)),
    decreases s.len() - i,
{
    if 0 <= i < s.len() {
        let c = s[i];
        assert(c != '#') by {
            if c == '#' {
                assert(s.contains('#'));
            }
        }
        let (piece, d2) = if c == '[' {
            (seq!['['], depth + 1)
        } else if c == ']' {
            if depth > 0 {
                (seq![']'], depth - 1)
            } else {
                (seq!['\\', ']'], depth)
            }
        } else if c == '@' || c == '<' {
            (seq!['\\', c], depth)
        } else {
            (seq![c], depth)
        };
        lemma_escape_scan_refs(s, i + 1, d2, code_until);
        let rest = escape_scan(s, i + 1, d2, code_until, true);
        let r = escape_scan(s, i, depth, code_until, true);
        assert(r == piece + rest);
        assert forall|k: int| 0 <= k < r.len() && (r[k] == '@' || r[k] == '<') implies k > 0 && #[trigger] r[k - 1]
            == '\\' by {
            if k >= piece.len() {
                assert(r[k] == rest[k - piece.len()]);
                if k - piece.len() > 0 {
                    assert(r[k - 1] == rest[k - piece.len() - 1]);
                }
            }
        }
    } else {
        assert(escape_scan(s, i, depth, code_until, true) =~= Seq::<char>::empty());
    }
}

/// Law: in content escaped for deletion, every `@` and `<` is preceded by a
/// backslash (so no deleted reference resolves and no deleted label is
/// defined), for text that holds no code (`#`).
pub proof fn lemma_deleted_refs_escaped(t: Seq<char>)
    requires
        !t.contains('#'),
    ensures
        refs_escaped(escape(t, true)),
{
    lemma_escape_scan_refs(t, 0, 0, 0);
    let r = escape_scan(t, 0, 0, 0, true);
    let e = escape(t, true);
    assert forall|k: int| 0 <= k < e.len() && (e[k] == '@' || e[k] == '<') implies k > 0 && #[trigger] e[k - 1]
        == '\\' by {
        assert(k < r.len());
        assert(e[k] == r[k]);
        assert(e[k - 1] == r[k - 1]);
    }
}

/// Law: a deleted span of a modified block that is not a lone label is
/// written as `#diff-deleted[...]` around its text escaped for deletion:
/// with references and labels escaped (`lemma_deleted_refs_escaped`) and a
/// closing bracket that is never escaped (`lemma_escape_closes`).
pub proof fn lemma_deleted_span_rendering(out: Seq<char>, after_diff: bool, text: Seq<char>)
    requires
        text.len() > 0,
        !label_only(text),
    ensures
        span_step((out, after_diff), (SpanTag::Deleted, text)) == (
            out + "#diff-deleted["@ + escape(text, true) + seq![']'],
            true,
        ),
        trailing_backslashes(escape(text, true)) % 2 == 0,
        !text.contains('#') ==> refs_escaped(escape(text, true)),
        // What stands between `#diff-deleted[` and `]` has its references
        // and labels escaped.
        !text.contains('#') ==> refs_escaped(
            span_step((out, after_diff), (SpanTag::Deleted, text)).0.subrange(
                out.len() + 14int,
                span_step((out, after_diff), (SpanTag::Deleted, text)).0.len() - 1,
            ),
        ),
{
    reveal_strlit("#diff-deleted[");
    let r = span_step((out, after_diff), (SpanTag::Deleted, text)).0;
    assert(r.subrange(out.len() + 14int, r.len() - 1) =~= escape(text, true));
    lemma_escape_closes(text, true);
    if !text.contains('#') {
        lemma_deleted_refs_escaped(text);
    }
}

} // verus!
