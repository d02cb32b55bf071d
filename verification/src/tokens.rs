//! Tokenizer for word-level diffs.
//!
//! ASCII alphanumeric runs form word tokens; every other character (CJK,
//! punctuation, whitespace) is a token of its own. Typst code expressions
//! (`#func[...]`, `#func(...)`), references (`@label`) and labels (`<label>`)
//! are kept whole so that a diff never cuts through Typst syntax.

use vstd::prelude::*;
use crate::label::{label_end, lemma_label_end_bounds, TypstLabel};
use crate::text::{ascii_alnum, ascii_alpha, is_ascii_alnum, is_ascii_alpha, slice_chars, string_from_chars, to_chars};
use crate::ops::strings_view;

verus! {

/// Character classes whose runs the tokenizer consumes.
#[derive(Clone, Copy, PartialEq, Eq, Structural)]
pub enum RunClass {
    /// Identifier after `#`: ASCII letters and digits, `-`, `_`.
    Ident,
    /// Reference name after `@`: ASCII letters and digits, `-`, `_`, `:`, `.`.
    Reference,
    /// ASCII letters and digits.
    Word,
}

pub open spec fn in_class(c: char, class: RunClass) -> bool {
    match class {
        RunClass::Ident => ascii_alnum(c) || c == '-' || c == '_',
        RunClass::Reference => ascii_alnum(c) || c == '-' || c == '_' || c == ':' || c == '.',
        RunClass::Word => ascii_alnum(c),
    }
}

/// End of the run of `class` characters that starts at `i`.
pub open spec fn run_end(s: Seq<char>, i: int, class: RunClass) -> int
    decreases s.len() - i,
{
    if 0 <= i < s.len() && in_class(s[i], class) {
        run_end(s, i + 1, class)
    } else {
        i
    }
}

/// Scan of a delimiter group: position `i`, nesting `depth` so far. A
/// backslash escapes the character after it.
pub open spec fn balanced_scan(s: Seq<char>, i: int, depth: int, open: char, close: char) -> int
    decreases s.len() - i,
{
    if i < 0 || i >= s.len() {
        i
    } else if s[i] == '\\' {
        if i + 1 < s.len() {
            balanced_scan(s, i + 2, depth, open, close)
        } else {
            balanced_scan(s, i + 1, depth, open, close)
        }
    } else if s[i] == open {
        balanced_scan(s, i + 1, depth + 1, open, close)
    } else if s[i] == close {
        if depth - 1 == 0 {
            i + 1
        } else {
            balanced_scan(s, i + 1, depth - 1, open, close)
        }
    } else {
        balanced_scan(s, i + 1, depth, open, close)
    }
}

/// Position just after the delimiter group that opens at `start`, or the end
/// of `s` if the group is never closed.
pub open spec fn balanced_end(s: Seq<char>, start: int, open: char, close: char) -> int {
    balanced_scan(s, start, 0, open, close)
}

/// End of the `[...]` and `(...)` groups that follow position `k` directly.
pub open spec fn groups_end(s: Seq<char>, k: int) -> int
    decreases s.len() - k,
{
    if 0 <= k < s.len() && (s[k] == '[' || s[k] == '(') {
        let e = if s[k] == '[' {
            balanced_end(s, k, '[', ']')
        } else {
            balanced_end(s, k, '(', ')')
        };
        if k < e <= s.len() {
            groups_end(s, e)
        } else {
            k
        }
    } else {
        k
    }
}

/// End of the token that starts at position `i`.
pub open spec fn token_end(s: Seq<char>, i: int) -> int {
    let c = s[i];
    if c == '#' {
        if i + 1 < s.len() && ascii_alpha(s[i + 1]) {
            groups_end(s, run_end(s, i + 1, RunClass::Ident))
        } else {
            i + 1
        }
    } else if c == '@' {
        run_end(s, i + 1, RunClass::Reference)
    } else if c == '<' {
        match label_end(s, i) {
            Some(e) => e,
            None => i + 1,
        }
    } else if ascii_alnum(c) {
        run_end(s, i + 1, RunClass::Word)
    } else {
        i + 1
    }
}

/// The tokens of `s` from position `i` on.
pub open spec fn tokens_from(s: Seq<char>, i: int) -> Seq<Seq<char>>
    decreases s.len() - i,
{
    if 0 <= i < s.len() {
        let e = token_end(s, i);
        if i < e <= s.len() {
            seq![s.subrange(i, e)] + tokens_from(s, e)
        } else {
            Seq::empty()
        }
    } else {
        Seq::empty()
    }
}

/// The tokens of `s`.
pub open spec fn tokenize(s: Seq<char>) -> Seq<Seq<char>> {
    tokens_from(s, 0)
}

/// The concatenation of the tokens of a sequence.
pub open spec fn concat(ts: Seq<Seq<char>>) -> Seq<char>
    decreases ts.len(),
{
    if ts.len() == 0 {
        Seq::empty()
    } else {
        concat(ts.drop_last()) + ts.last()
    }
}

pub proof fn lemma_run_end_bounds(s: Seq<char>, i: int, class: RunClass)
    requires
        0 <= i <= s.len(),
    ensures
        i <= run_end(s, i, class) <= s.len(),
    decreases s.len() - i,
{
    if i < s.len() && in_class(s[i], class) {
        lemma_run_end_bounds(s, i + 1, class);
    }
}

pub proof fn lemma_balanced_scan_bounds(s: Seq<char>, i: int, depth: int, open: char, close: char)
    requires
        0 <= i <= s.len(),
    ensures
        i <= balanced_scan(s, i, depth, open, close) <= s.len(),
        i < s.len() ==> i < balanced_scan(s, i, depth, open, close),
    decreases s.len() - i,
{
    if i < s.len() {
        if s[i] == '\\' {
            if i + 1 < s.len() {
                lemma_balanced_scan_bounds(s, i + 2, depth, open, close);
            } else {
                lemma_balanced_scan_bounds(s, i + 1, depth, open, close);
            }
        } else if s[i] == open {
            lemma_balanced_scan_bounds(s, i + 1, depth + 1, open, close);
        } else if s[i] == close {
            if depth - 1 != 0 {
                lemma_balanced_scan_bounds(s, i + 1, depth - 1, open, close);
            }
        } else {
            lemma_balanced_scan_bounds(s, i + 1, depth, open, close);
        }
    }
}

pub proof fn lemma_groups_end_bounds(s: Seq<char>, k: int)
    requires
        0 <= k <= s.len(),
    ensures
        k <= groups_end(s, k) <= s.len(),
    decreases s.len() - k,
{
    if 0 <= k < s.len() && (s[k] == '[' || s[k] == '(') {
        lemma_balanced_scan_bounds(s, k, 0, '[', ']');
        lemma_balanced_scan_bounds(s, k, 0, '(', ')');
        let e = if s[k] == '[' {
            balanced_end(s, k, '[', ']')
        } else {
            balanced_end(s, k, '(', ')')
        };
        lemma_groups_end_bounds(s, e);
    }
}

/// Every token is non-empty and stays within the text.
pub proof fn lemma_token_end_bounds(s: Seq<char>, i: int)
    requires
        0 <= i < s.len(),
    ensures
        i < token_end(s, i) <= s.len(),
{
    lemma_run_end_bounds(s, i + 1, RunClass::Ident);
    lemma_run_end_bounds(s, i + 1, RunClass::Reference);
    lemma_run_end_bounds(s, i + 1, RunClass::Word);
    lemma_groups_end_bounds(s, run_end(s, i + 1, RunClass::Ident));
    lemma_label_end_bounds(s, i);
}

pub proof fn lemma_concat_push(ts: Seq<Seq<char>>, t: Seq<char>)
    ensures
        concat(ts.push(t)) == concat(ts) + t,
{
    assert(ts.push(t).drop_last() =~= ts);
}

pub proof fn lemma_concat_append(a: Seq<Seq<char>>, b: Seq<Seq<char>>)
    ensures
        concat(a + b) == concat(a) + concat(b),
    decreases b.len(),
{
    if b.len() == 0 {
        assert(a + b =~= a);
        assert(concat(b) =~= Seq::<char>::empty());
        assert(concat(a) + concat(b) =~= concat(a));
    } else {
        lemma_concat_append(a, b.drop_last());
        assert((a + b).drop_last() =~= a + b.drop_last());
        assert(concat(a) + concat(b) =~= concat(a) + concat(b.drop_last()) + b.last());
    }
}

/// The tokens from position `i` on spell out the text from `i` on, and none
/// of them is empty.
pub proof fn lemma_tokens_from_concat(s: Seq<char>, i: int)
    requires
        0 <= i <= s.len(),
    ensures
        concat(tokens_from(s, i)) == s.subrange(i, s.len() as int),
        forall|k: int| 0 <= k < tokens_from(s, i).len() ==> (#[trigger] tokens_from(s, i)[k]).len() > 0,
    decreases s.len() - i,
{
    if i < s.len() {
        let e = token_end(s, i);
        lemma_token_end_bounds(s, i);
        lemma_tokens_from_concat(s, e);
        let head = seq![s.subrange(i, e)];
        lemma_concat_append(head, tokens_from(s, e));
        assert(head.drop_last() =~= Seq::<Seq<char>>::empty());
        assert(concat(head.drop_last()) =~= Seq::<char>::empty());
        assert(concat(head) == concat(head.drop_last()) + head.last());
        assert(concat(head) =~= s.subrange(i, e));
        assert(s.subrange(i, e) + s.subrange(e, s.len() as int) =~= s.subrange(i, s.len() as int));
        assert forall|k: int| 0 <= k < tokens_from(s, i).len() implies (#[trigger] tokens_from(s, i)[k]).len() > 0 by {
            if k > 0 {
                assert(tokens_from(s, i)[k] == tokens_from(s, e)[k - 1]);
            }
        }
    } else {
        assert(s.subrange(i, s.len() as int) =~= Seq::<char>::empty());
    }
}

/// Law: tokenization loses nothing. The tokens of a text, concatenated, give
/// the text back, and no token is empty.
pub proof fn lemma_tokenize_concat(s: Seq<char>)
    ensures
        concat(tokenize(s)) == s,
        forall|k: int| 0 <= k < tokenize(s).len() ==> (#[trigger] tokenize(s)[k]).len() > 0,
{
    lemma_tokens_from_concat(s, 0);
    assert(s.subrange(0, s.len() as int) =~= s);
}

fn in_class_exec(c: char, class: RunClass) -> (r: bool)
    ensures
        r == in_class(c, class),
{
    match class {
        RunClass::Ident => is_ascii_alnum(c) || c == '-' || c == '_',
        RunClass::Reference => is_ascii_alnum(c) || c == '-' || c == '_' || c == ':' || c == '.',
        RunClass::Word => is_ascii_alnum(c),
    }
}

fn scan_run(s: &Vec<char>, i: usize, class: RunClass) -> (r: usize)
    requires
        i <= s@.len(),
    ensures
        r == run_end(s@, i as int, class),
{
    let mut k = i;
    while k < s.len() && in_class_exec(s[k], class)
        invariant
            i <= k <= s@.len(),
            run_end(s@, k as int, class) == run_end(s@, i as int, class),
        decreases s@.len() - k,
    {
        k = k + 1;
    }
    k
}

/// Skip over a balanced delimiter group starting at position `start`.
/// Returns the position after the delimiter that brings the nesting back to
/// zero; if none does, the end of the text. A backslash escapes the
/// character after it.
pub fn skip_balanced(s: &Vec<char>, start: usize, open: char, close: char) -> (r: usize)
    ensures
        r == balanced_end(s@, start as int, open, close),
        start < s@.len() ==> start < r <= s@.len(),
{
    proof {
        if start <= s@.len() {
            lemma_balanced_scan_bounds(s@, start as int, 0, open, close);
        }
    }
    let n = s.len();
    let mut i = start;
    let mut depth: i128 = 0;
    while i < n
        invariant
            n == s@.len(),
            start <= i,
            -((i - start) as int) <= depth <= i - start,
            balanced_scan(s@, i as int, depth as int, open, close) == balanced_end(s@, start as int, open, close),
        decreases n - i,
    {
        let c = s[i];
        if c == '\\' {
            i = i + 1;
            if i < n {
                i = i + 1;
            }
            continue;
        }
        if c == open {
            depth = depth + 1;
        } else if c == close {
            depth = depth - 1;
            if depth == 0 {
                return i + 1;
            }
        }
        i = i + 1;
    }
    i
}

/// End of the `[...]`/`(...)` groups directly after position `k`.
fn skip_groups(s: &Vec<char>, k: usize) -> (r: usize)
    requires
        k <= s@.len(),
    ensures
        r == groups_end(s@, k as int),
{
    let mut i = k;
    while i < s.len() && (s[i] == '[' || s[i] == '(')
        invariant
            k <= i <= s@.len(),
            groups_end(s@, i as int) == groups_end(s@, k as int),
        decreases s@.len() - i,
    {
        if s[i] == '[' {
            i = skip_balanced(s, i, '[', ']');
        } else {
            i = skip_balanced(s, i, '(', ')');
        }
    }
    i
}

/// End of the token that starts at position `i`.
pub fn next_token_end(s: &Vec<char>, i: usize) -> (r: usize)
    requires
        i < s@.len(),
    ensures
        r == token_end(s@, i as int),
        i < r <= s@.len(),
{
    proof {
        lemma_token_end_bounds(s@, i as int);
    }
    let n = s.len();
    let c = s[i];
    if c == '#' {
        if i + 1 < n && is_ascii_alpha(s[i + 1]) {
            let k = scan_run(s, i + 1, RunClass::Ident);
            skip_groups(s, k)
        } else {
            i + 1
        }
    } else if c == '@' {
        scan_run(s, i + 1, RunClass::Reference)
    } else if c == '<' {
        match TypstLabel::end(s, i) {
            Some(e) => e,
            None => i + 1,
        }
    } else if is_ascii_alnum(c) {
        scan_run(s, i + 1, RunClass::Word)
    } else {
        i + 1
    }
}

/// Tokenize text for diffing: ASCII alphanumeric runs form word tokens,
/// everything else (CJK characters, punctuation, whitespace) becomes an
/// individual single-character token.
///
/// Typst code expressions (`#func[...]`, `#func(...)`), references (`@label`),
/// and labels (`<label>`) are treated as atomic tokens so the diff never
/// fragments valid Typst syntax.
pub fn tokenize_chars(s: &Vec<char>) -> (tokens: Vec<String>)
    ensures
        strings_view(tokens@) == tokenize(s@),
{
    let n = s.len();
    let mut tokens: Vec<String> = Vec::new();
    let mut i: usize = 0;
    while i < n
        invariant
            n == s@.len(),
            i <= n,
            strings_view(tokens@) + tokens_from(s@, i as int) == tokenize(s@),
        decreases n - i,
    {
        let e = next_token_end(s, i);
        let token = string_from_chars(&slice_chars(s, i, e));
        let ghost before = strings_view(tokens@);
        tokens.push(token);
        assert(strings_view(tokens@) =~= before.push(s@.subrange(i as int, e as int)));
        assert(tokens_from(s@, i as int) == seq![s@.subrange(i as int, e as int)] + tokens_from(s@, e as int));
        assert(before + tokens_from(s@, i as int) =~= before.push(s@.subrange(i as int, e as int)) + tokens_from(s@, e as int));
        i = e;
    }
    assert(tokens_from(s@, i as int) =~= Seq::<Seq<char>>::empty());
    assert(strings_view(tokens@) + tokens_from(s@, i as int) =~= strings_view(tokens@));
    tokens
}

/// The tokens of `s` (see `tokenize_chars`).
pub fn tokenize_mixed(s: &str) -> (tokens: Vec<String>)
    ensures
        strings_view(tokens@) == tokenize(s@),
{
    tokenize_chars(&to_chars(s))
}

/// A non-empty run of ASCII letters and digits.
pub open spec fn is_word(t: Seq<char>) -> bool {
    t.len() > 0 && forall|j: int| 0 <= j < t.len() ==> ascii_alnum(#[trigger] t[j])
}

/// A single character that is not an ASCII letter or digit.
pub open spec fn is_single_other(t: Seq<char>) -> bool {
    t.len() == 1 && !ascii_alnum(t[0])
}

/// Text without the characters that open Typst code, references and labels.
pub open spec fn plain_text(s: Seq<char>) -> bool {
    !s.contains('#') && !s.contains('@') && !s.contains('<')
}

pub proof fn lemma_run_end_props(s: Seq<char>, i: int, class: RunClass)
    requires
        0 <= i <= s.len(),
    ensures
        forall|j: int| i <= j < run_end(s, i, class) ==> in_class(#[trigger] s[j], class),
        run_end(s, i, class) < s.len() ==> !in_class(s[run_end(s, i, class)], class),
    decreases s.len() - i,
{
    if i < s.len() && in_class(s[i], class) {
        lemma_run_end_props(s, i + 1, class);
    }
}

proof fn lemma_plain_tokens_from(s: Seq<char>, i: int)
    requires
        plain_text(s),
        0 <= i <= s.len(),
    ensures
        forall|k: int|
            0 <= k < tokens_from(s, i).len() ==> is_word(#[trigger] tokens_from(s, i)[k]) || is_single_other(
                tokens_from(s, i)[k],
            ),
        forall|k: int|
            0 <= k < tokens_from(s, i).len() - 1 ==> !(is_word(#[trigger] tokens_from(s, i)[k]) && is_word(
                tokens_from(s, i)[k + 1],
            )),
        i < s.len() ==> tokens_from(s, i).len() > 0 && tokens_from(s, i)[0].len() > 0 && tokens_from(s, i)[0][0]
            == s[i],
        i == s.len() ==> tokens_from(s, i).len() == 0,
    decreases s.len() - i,
{
    if i < s.len() {
        let e = token_end(s, i);
        lemma_token_end_bounds(s, i);
        assert(s[i] != '#' && s[i] != '@' && s[i] != '<') by {
            if s[i] == '#' {
                assert(s.contains('#'));
            }
            if s[i] == '@' {
                assert(s.contains('@'));
            }
            if s[i] == '<' {
                assert(s.contains('<'));
            }
        }
        lemma_run_end_props(s, i + 1, RunClass::Word);
        lemma_plain_tokens_from(s, e);
        let head = s.subrange(i, e);
        let tail = tokens_from(s, e);
        let ts = tokens_from(s, i);
        assert(ts == seq![head] + tail);
        assert(is_word(head) || is_single_other(head)) by {
            if ascii_alnum(s[i]) {
                assert forall|j: int| 0 <= j < head.len() implies ascii_alnum(#[trigger] head[j]) by {
                    if j > 0 {
                        assert(in_class(s[i + j], RunClass::Word));
                    }
                }
            }
        }
        if is_word(head) && tail.len() > 0 {
            assert(ascii_alnum(s[i]));
            assert(e < s.len());
            assert(!ascii_alnum(s[e]));
            assert(!is_word(tail[0]));
        }
        assert forall|k: int| 0 <= k < ts.len() implies is_word(#[trigger] ts[k]) || is_single_other(ts[k]) by {
            if k > 0 {
                assert(ts[k] == tail[k - 1]);
            }
        }
        assert forall|k: int| 0 <= k < ts.len() - 1 implies !(is_word(#[trigger] ts[k]) && is_word(ts[k + 1])) by {
            if k > 0 {
                assert(ts[k] == tail[k - 1]);
                assert(ts[k + 1] == tail[k]);
            } else {
                assert(ts[1] == tail[0]);
            }
        }
    }
}

/// Law: on text without `#`, `@` and `<`, every token is either a non-empty
/// run of ASCII letters and digits or a single other character, and runs are
/// maximal: no two runs follow each other.
pub proof fn lemma_plain_tokens(s: Seq<char>)
    requires
        plain_text(s),
    ensures
        forall|k: int| 0 <= k < tokenize(s).len() ==> is_word(#[trigger] tokenize(s)[k]) || is_single_other(tokenize(s)[k]),
        forall|k: int| 0 <= k < tokenize(s).len() - 1 ==> !(is_word(#[trigger] tokenize(s)[k]) && is_word(tokenize(s)[k + 1])),
{
    lemma_plain_tokens_from(s, 0);
}

proof fn lemma_balanced_scan_closes(s: Seq<char>, i: int, depth: int, open: char, close: char)
    requires
        0 <= i <= s.len(),
        depth >= 1,
        open != close,
    ensures
        balanced_scan(s, i, depth, open, close) < s.len() ==> balanced_scan(s, i, depth, open, close) > i
            && s[balanced_scan(s, i, depth, open, close) - 1] == close,
    decreases s.len() - i,
{
    if i < s.len() {
        if s[i] == '\\' {
            if i + 1 < s.len() {
                lemma_balanced_scan_closes(s, i + 2, depth, open, close);
            } else {
                lemma_balanced_scan_closes(s, i + 1, depth, open, close);
            }
        } else if s[i] == open {
            lemma_balanced_scan_closes(s, i + 1, depth + 1, open, close);
        } else if s[i] == close {
            if depth - 1 != 0 {
                lemma_balanced_scan_closes(s, i + 1, depth - 1, open, close);
            }
        } else {
            lemma_balanced_scan_closes(s, i + 1, depth, open, close);
        }
    }
}

/// Law: a group that opens at `start` ends just after a closing delimiter,
/// the one at which the nesting (one up per opening, one down per closing,
/// escaped characters not counted) first comes back to zero, or it runs to
/// the end of the text if that never happens.
pub proof fn lemma_balanced_end_closes(s: Seq<char>, start: int, open: char, close: char)
    requires
        0 <= start < s.len(),
        s[start] == open,
        open != close,
        open != '\\',
    ensures
        start < balanced_end(s, start, open, close) <= s.len(),
        balanced_end(s, start, open, close) < s.len() ==> s[balanced_end(s, start, open, close) - 1] == close,
{
    lemma_balanced_scan_bounds(s, start, 0, open, close);
    lemma_balanced_scan_closes(s, start + 1, 1, open, close);
    assert(balanced_scan(s, start, 0, open, close) == balanced_scan(s, start + 1, 1, open, close));
}

/// A character of a function name after `#`: an ASCII letter or digit,
/// `-` or `_`.
pub open spec fn name_char(c: char) -> bool {
    ascii_alnum(c) || c == '-' || c == '_'
}

proof fn lemma_name_run(s: Seq<char>, i: int, e: int)
    requires
        0 <= i <= e <= s.len(),
        forall|j: int| i <= j < e ==> name_char(#[trigger] s[j]),
        e < s.len() ==> !name_char(s[e]),
    ensures
        run_end(s, i, RunClass::Ident) == e,
    decreases e - i,
{
    if i < e {
        lemma_name_run(s, i + 1, e);
    }
}

proof fn lemma_plain_group(s: Seq<char>, i: int, b: int)
    requires
        0 <= i <= b < s.len(),
        s[b] == ']',
        forall|j: int| i <= j < b ==> (#[trigger] s[j] != '[' && s[j] != ']' && s[j] != '\\'),
    ensures
        balanced_scan(s, i, 1, '[', ']') == b + 1,
    decreases b - i,
{
    if i < b {
        lemma_plain_group(s, i + 1, b);
    }
}

/// Law: a function name after `#` is never cut: when the text starts with
/// `#`, a letter and a run of name characters (letters, digits, `-`, `_`)
/// that no bracket or parenthesis follows, its first token is exactly that.
pub proof fn lemma_code_name_token(s: Seq<char>, e: int)
    requires
        2 <= e <= s.len(),
        s[0] == '#',
        ascii_alpha(s[1]),
        forall|j: int| 1 <= j < e ==> name_char(#[trigger] s[j]),
        e < s.len() ==> !name_char(s[e]) && s[e] != '[' && s[e] != '(',
    ensures
        tokenize(s).len() > 0,
        tokenize(s)[0] == s.subrange(0, e),
{
    lemma_name_run(s, 1, e);
    lemma_token_end_bounds(s, 0);
}

/// Law: a call `#name[...]` with a plain content argument (no brackets or
/// backslashes inside) is one token, whatever the name characters, when no
/// further bracket or parenthesis follows it.
pub proof fn lemma_code_call_token(s: Seq<char>, e: int, b: int)
    requires
        2 <= e < b < s.len(),
        s[0] == '#',
        ascii_alpha(s[1]),
        forall|j: int| 1 <= j < e ==> name_char(#[trigger] s[j]),
        s[e] == '[',
        s[b] == ']',
        forall|j: int| e < j < b ==> (#[trigger] s[j] != '[' && s[j] != ']' && s[j] != '\\'),
        b + 1 < s.len() ==> s[b + 1] != '[' && s[b + 1] != '(',
    ensures
        tokenize(s).len() > 0,
        tokenize(s)[0] == s.subrange(0, b + 1),
{
    lemma_name_run(s, 1, e);
    lemma_plain_group(s, e + 1, b);
    assert(balanced_end(s, e, '[', ']') == b + 1);
    assert(groups_end(s, b + 1) == b + 1);
    assert(groups_end(s, e) == b + 1);
    lemma_token_end_bounds(s, 0);
}

} // verus!
