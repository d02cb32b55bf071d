//! Typst labels: `<name>` where the name is a non-empty run of characters
//! that Typst accepts in a label literal.

use vstd::prelude::*;
use crate::text::{ascii_alnum, trim, trim_chars, to_chars};

verus! {

/// Whether typst-syntax's lexer accepts `c` inside an identifier
/// (`typst_syntax::is_id_continue`).
pub uninterp spec fn typst_id_continue(c: char) -> bool;

/// Calls `typst_syntax::is_id_continue`, which is `is_xid_continue(c) || c ==
/// '_' || c == '-'`. The contract claims that the answer depends on the
/// character alone and, on ASCII, holds exactly for letters, digits, `_` and
/// `-` (XID_Continue on ASCII is letters, digits and `_`); the rest of the
/// Unicode XID_Continue table is not restated here.
#[verifier::external_body]
pub(crate) fn is_id_continue(c: char) -> (r: bool)
    ensures
        r == typst_id_continue(c),
        ascii_alnum(c) || c == '_' || c == '-' ==> r,
        c <= '\u{7f}' ==> (r == (ascii_alnum(c) || c == '_' || c == '-')),
{
    typst_syntax::is_id_continue(c)
}

/// A character that may stand in a label literal: an identifier character,
/// `:` or `.` (the rule of typst-syntax's lexer for labels).
pub open spec fn label_char(c: char) -> bool {
    typst_id_continue(c) || c == ':' || c == '.'
}

/// End of the run of label characters that starts at `i`.
pub open spec fn label_run_end(s: Seq<char>, i: int) -> int
    decreases s.len() - i,
{
    if 0 <= i < s.len() && label_char(s[i]) {
        label_run_end(s, i + 1)
    } else {
        i
    }
}

/// If a label `<name>` starts at position `i` of `s`, the position just
/// after its closing `>`.
pub open spec fn label_end(s: Seq<char>, i: int) -> Option<int> {
    if 0 <= i < s.len() && s[i] == '<' {
        let e = label_run_end(s, i + 1);
        if e > i + 1 && e < s.len() && s[e] == '>' {
            Some(e + 1)
        } else {
            None
        }
    } else {
        None
    }
}

/// `text`, once trimmed, is exactly one label.
pub open spec fn label_only(text: Seq<char>) -> bool {
    let t = trim(text);
    label_end(t, 0) == Some(t.len() as int)
}

pub proof fn lemma_label_run_end_bounds(s: Seq<char>, i: int)
    requires
        0 <= i <= s.len(),
    ensures
        i <= label_run_end(s, i) <= s.len(),
        forall|k: int| i <= k < label_run_end(s, i) ==> label_char(#[trigger] s[k]),
    decreases s.len() - i,
{
    if i < s.len() && label_char(s[i]) {
        lemma_label_run_end_bounds(s, i + 1);
    }
}

pub proof fn lemma_label_end_bounds(s: Seq<char>, i: int)
    requires
        0 <= i < s.len(),
    ensures
        label_end(s, i) matches Some(e) ==> i + 3 <= e <= s.len(),
{
    lemma_label_run_end_bounds(s, i + 1);
}

/// Recognizer for Typst labels.
pub struct TypstLabel;

impl TypstLabel {
    /// If a label starts at position `i` of `s`, returns the position just
    /// after it.
    pub fn end(s: &Vec<char>, i: usize) -> (r: Option<usize>)
        ensures
            r matches Some(e) ==> label_end(s@, i as int) == Some(e as int),
            r is None ==> label_end(s@, i as int) is None,
    {
        if i >= s.len() || s[i] != '<' {
            return None;
        }
        let mut e = i + 1;
        while e < s.len() && (is_id_continue(s[e]) || s[e] == ':' || s[e] == '.')
            invariant
                i < e <= s@.len(),
                label_run_end(s@, e as int) == label_run_end(s@, i + 1),
            decreases s@.len() - e,
        {
            e = e + 1;
        }
        if e > i + 1 && e < s.len() && s[e] == '>' {
            Some(e + 1)
        } else {
            None
        }
    }

    /// Returns true if `text`, ignoring surrounding whitespace, is a single
    /// label.
    pub fn is_only(text: &str) -> (r: bool)
        ensures
            r == label_only(text@),
    {
        let chars = to_chars(text);
        let t = trim_chars(&chars);
        if t.len() == 0 {
            return false;
        }
        match TypstLabel::end(&t, 0) {
            Some(e) => e == t.len(),
            None => false,
        }
    }
}

} // verus!
