//! Word-level diff of the text of two blocks.

use vstd::prelude::*;
use crate::{DiffSpan, SpanModel, SpanTag, span_model, spans_model};
use crate::ops::{
    all_equal, as_strs, diff_slices, equal_ops_agree, lemma_tile_bounds, new_covered, old_covered, ops_tile,
    op_new_len, op_old_len, slice_diff_ops, strings_view, DiffAlgorithm, EditOp,
};
use crate::tokens::{concat, lemma_concat_append, lemma_concat_push, lemma_tokenize_concat, tokenize, tokenize_mixed};

verus! {

/// The spans that an edit step of a token diff expands to: one span per
/// token, equal tokens taken from the old side, and for a replacement the
/// deleted tokens before the inserted ones.
pub open spec fn changes_of_op(op: EditOp, old: Seq<Seq<char>>, new: Seq<Seq<char>>) -> Seq<SpanModel> {
    match op {
        EditOp::Equal { old_index, len, .. } => Seq::new(
            len as nat,
            |k: int| (SpanTag::Equal, old[old_index + k]),
        ),
        EditOp::Delete { old_index, old_len, .. } => Seq::new(
            old_len as nat,
            |k: int| (SpanTag::Deleted, old[old_index + k]),
        ),
        EditOp::Insert { new_index, new_len, .. } => Seq::new(
            new_len as nat,
            |k: int| (SpanTag::Inserted, new[new_index + k]),
        ),
        EditOp::Replace { old_index, old_len, new_index, new_len } => Seq::new(
            old_len as nat,
            |k: int| (SpanTag::Deleted, old[old_index + k]),
        ) + Seq::new(new_len as nat, |k: int| (SpanTag::Inserted, new[new_index + k])),
    }
}

/// All spans of an edit script, in order.
pub open spec fn all_changes(ops: Seq<EditOp>, old: Seq<Seq<char>>, new: Seq<Seq<char>>) -> Seq<SpanModel>
    decreases ops.len(),
{
    if ops.len() == 0 {
        Seq::empty()
    } else {
        all_changes(ops.drop_last(), old, new) + changes_of_op(ops.last(), old, new)
    }
}

/// Adjacent spans with the same tag merged into one.
pub open spec fn coalesce(spans: Seq<SpanModel>) -> Seq<SpanModel>
    decreases spans.len(),
{
    if spans.len() == 0 {
        Seq::empty()
    } else {
        let r = coalesce(spans.drop_last());
        let x = spans.last();
        if r.len() > 0 && r.last().0 == x.0 {
            r.drop_last().push((x.0, r.last().1 + x.1))
        } else {
            r.push(x)
        }
    }
}

/// The word-level diff of two texts: the token edit script that `similar`
/// computes with Myers' algorithm, expanded into spans and coalesced.
pub open spec fn word_diff_spans(old_text: Seq<char>, new_text: Seq<char>) -> Seq<SpanModel> {
    let ta = tokenize(old_text);
    let tb = tokenize(new_text);
    coalesce(all_changes(slice_diff_ops(DiffAlgorithm::Myers, ta, tb), ta, tb))
}

/// Merge adjacent spans that have the same tag.
pub fn coalesce_spans(spans: Vec<DiffSpan>) -> (result: Vec<DiffSpan>)
    ensures
        spans_model(result@) == coalesce(spans_model(spans@)),
{
    let mut result: Vec<DiffSpan> = Vec::new();
    let n = spans.len();
    let mut i: usize = 0;
    while i < n
        invariant
            n == spans@.len(),
            i <= n,
            spans_model(result@) == coalesce(spans_model(spans@.take(i as int))),
        decreases n - i,
    {
        let span = &spans[i];
        let ghost prev = spans_model(result@);
        assert(spans_model(spans@.take(i + 1)).drop_last() =~= spans_model(spans@.take(i as int)));
        assert(spans_model(spans@.take(i + 1)).last() == span_model(*span));
        let rlen = result.len();
        if rlen > 0 && result[rlen - 1].tag == span.tag {
            let mut last = result.pop().unwrap();
            assert(prev.last() == span_model(last));
            assert(prev.drop_last() =~= spans_model(result@));
            last.text.append(span.text.as_str());
            result.push(last);
            assert(spans_model(result@) =~= prev.drop_last().push((span.tag, prev.last().1 + span.text@)));
        } else {
            result.push(DiffSpan { tag: span.tag, text: span.text.clone() });
            assert(spans_model(result@) =~= prev.push(span_model(*span)));
        }
        i = i + 1;
    }
    assert(spans@.take(n as int) =~= spans@);
    result
}

/// Perform mixed-granularity diff and return coalesced spans.
///
/// Uses a custom tokenizer that splits CJK characters individually while
/// keeping ASCII words intact, then diffs at the token level.
pub fn word_diff(old_text: &str, new_text: &str) -> (spans: Vec<DiffSpan>)
    ensures
        spans_model(spans@) == word_diff_spans(old_text@, new_text@),
        // Nothing is lost: the equal and deleted spans spell the old text,
        // the equal and inserted spans the new text.
        old_text_of(spans_model(spans@)) == old_text@,
        new_text_of(spans_model(spans@)) == new_text@,
        // Adjacent spans have different tags.
        forall|i: int| 0 <= i < spans@.len() - 1 ==> (#[trigger] spans@[i]).tag != spans@[i + 1].tag,
        // A text compared with itself is one equal span.
        old_text@ == new_text@ ==> spans_model(spans@) == unchanged_spans(old_text@),
        // No span is empty.
        forall|i: int| 0 <= i < spans@.len() ==> (#[trigger] spans@[i]).text@.len() > 0,
{
    let old_tokens = tokenize_mixed(old_text);
    let new_tokens = tokenize_mixed(new_text);
    let old_refs = as_strs(&old_tokens);
    let new_refs = as_strs(&new_tokens);
    let ops = diff_slices(DiffAlgorithm::Myers, &old_refs, &new_refs);
    let spans = spans_from_ops(&old_tokens, &new_tokens, &ops);
    proof {
        let ta = strings_view(old_tokens@);
        let tb = strings_view(new_tokens@);
        lemma_word_diff_facts(ops@, old_text@, new_text@);
        let sm = spans_model(spans@);
        assert(sm == coalesce(all_changes(ops@, ta, tb)));
        assert forall|i: int| 0 <= i < spans@.len() implies (#[trigger] spans@[i]).text@.len() > 0 by {
            assert(sm[i].1 == spans@[i].text@);
        }
        assert forall|i: int| 0 <= i < spans@.len() - 1 implies (#[trigger] spans@[i]).tag != spans@[i + 1].tag by {
            assert(sm[i].0 == spans@[i].tag);
            assert(sm[i + 1].0 == spans@[i + 1].tag);
        }
    }
    spans
}

/// The coalesced spans of a token edit script: one span per token (equal
/// tokens from the old side; for a replacement, deletions before
/// insertions), adjacent spans of the same tag merged.
pub fn spans_from_ops(old_tokens: &Vec<String>, new_tokens: &Vec<String>, ops: &Vec<EditOp>) -> (spans: Vec<DiffSpan>)
    requires
        ops_tile(ops@, old_tokens@.len() as int, new_tokens@.len() as int),
    ensures
        spans_model(spans@) == coalesce(all_changes(ops@, strings_view(old_tokens@), strings_view(new_tokens@))),
{
    let ghost ta = strings_view(old_tokens@);
    let ghost tb = strings_view(new_tokens@);
    let mut raw: Vec<DiffSpan> = Vec::new();
    let nops = ops.len();
    let mut k: usize = 0;
    while k < nops
        invariant
            nops == ops@.len(),
            k <= nops,
            ta == strings_view(old_tokens@),
            tb == strings_view(new_tokens@),
            ops_tile(ops@, old_tokens@.len() as int, new_tokens@.len() as int),
            spans_model(raw@) == all_changes(ops@.take(k as int), ta, tb),
        decreases nops - k,
    {
        proof {
            lemma_tile_bounds(ops@, old_tokens@.len() as int, new_tokens@.len() as int, k as int);
        }
        let op = ops[k];
        let ghost before = spans_model(raw@);
        match op {
            EditOp::Equal { old_index, len, .. } => {
                push_token_spans(&mut raw, old_tokens, old_index, len, SpanTag::Equal);
            },
            EditOp::Delete { old_index, old_len, .. } => {
                push_token_spans(&mut raw, old_tokens, old_index, old_len, SpanTag::Deleted);
            },
            EditOp::Insert { new_index, new_len, .. } => {
                push_token_spans(&mut raw, new_tokens, new_index, new_len, SpanTag::Inserted);
            },
            EditOp::Replace { old_index, old_len, new_index, new_len } => {
                push_token_spans(&mut raw, old_tokens, old_index, old_len, SpanTag::Deleted);
                push_token_spans(&mut raw, new_tokens, new_index, new_len, SpanTag::Inserted);
            },
        }
        assert(ops@.take(k + 1).drop_last() =~= ops@.take(k as int));
        assert(spans_model(raw@) =~= before + changes_of_op(op, ta, tb));
        k = k + 1;
    }
    assert(ops@.take(nops as int) =~= ops@);
    coalesce_spans(raw)
}

/// Appends one span with tag `tag` for each of the `len` tokens from `start` on.
fn push_token_spans(raw: &mut Vec<DiffSpan>, tokens: &Vec<String>, start: usize, len: usize, tag: SpanTag)
    requires
        start + len <= tokens@.len(),
    ensures
        spans_model(final(raw)@) == spans_model(old(raw)@) + Seq::new(
            len as nat,
            |k: int| (tag, strings_view(tokens@)[start + k]),
        ),
{
    let ghost before = spans_model(raw@);
    let n = tokens.len();
    let mut j: usize = 0;
    while j < len
        invariant
            n == tokens@.len(),
            start + len <= tokens@.len(),
            j <= len,
            spans_model(raw@) == before + Seq::new(j as nat, |k: int| (tag, strings_view(tokens@)[start + k])),
        decreases len - j,
    {
        let ghost prev = raw@;
        let span = DiffSpan { tag, text: tokens[start + j].clone() };
        raw.push(span);
        assert(raw@ =~= prev.push(span));
        assert(spans_model(raw@) =~= spans_model(prev).push(span_model(span)));
        j = j + 1;
        assert(spans_model(raw@) =~= before + Seq::new(j as nat, |k: int| (tag, strings_view(tokens@)[start + k])));
    }
}


// ---------------------------------------------------------------------------
// Laws.

/// The old text of a span sequence: its equal and deleted texts, in order.
pub open spec fn old_text_of(spans: Seq<SpanModel>) -> Seq<char>
    decreases spans.len(),
{
    if spans.len() == 0 {
        Seq::empty()
    } else {
        old_text_of(spans.drop_last()) + if spans.last().0 != SpanTag::Inserted {
            spans.last().1
        } else {
            Seq::empty()
        }
    }
}

/// The new text of a span sequence: its equal and inserted texts, in order.
pub open spec fn new_text_of(spans: Seq<SpanModel>) -> Seq<char>
    decreases spans.len(),
{
    if spans.len() == 0 {
        Seq::empty()
    } else {
        new_text_of(spans.drop_last()) + if spans.last().0 != SpanTag::Deleted {
            spans.last().1
        } else {
            Seq::empty()
        }
    }
}

pub proof fn lemma_sides_append(a: Seq<SpanModel>, b: Seq<SpanModel>)
    ensures
        old_text_of(a + b) == old_text_of(a) + old_text_of(b),
        new_text_of(a + b) == new_text_of(a) + new_text_of(b),
    decreases b.len(),
{
    if b.len() == 0 {
        assert(a + b =~= a);
        assert(old_text_of(a) + old_text_of(b) =~= old_text_of(a));
        assert(new_text_of(a) + new_text_of(b) =~= new_text_of(a));
    } else {
        lemma_sides_append(a, b.drop_last());
        assert((a + b).drop_last() =~= a + b.drop_last());
        assert((a + b).last() == b.last());
        assert(old_text_of(a) + old_text_of(b) =~= old_text_of(a) + old_text_of(b.drop_last()) + (
        if b.last().0 != SpanTag::Inserted {
            b.last().1
        } else {
            Seq::empty()
        }));
        assert(new_text_of(a) + new_text_of(b) =~= new_text_of(a) + new_text_of(b.drop_last()) + (
        if b.last().0 != SpanTag::Deleted {
            b.last().1
        } else {
            Seq::empty()
        }));
    }
}

/// Law: merging adjacent spans of the same tag changes neither the old nor
/// the new text.
pub proof fn lemma_coalesce_sides(spans: Seq<SpanModel>)
    ensures
        old_text_of(coalesce(spans)) == old_text_of(spans),
        new_text_of(coalesce(spans)) == new_text_of(spans),
    decreases spans.len(),
{
    if spans.len() > 0 {
        lemma_coalesce_sides(spans.drop_last());
        let r = coalesce(spans.drop_last());
        let x = spans.last();
        if r.len() > 0 && r.last().0 == x.0 {
            let y = (x.0, r.last().1 + x.1);
            let c = r.drop_last().push(y);
            assert(c.drop_last() =~= r.drop_last());
            assert(r =~= r.drop_last().push(r.last()));
            assert(old_text_of(c) =~= old_text_of(r) + if x.0 != SpanTag::Inserted {
                x.1
            } else {
                Seq::empty()
            });
            assert(new_text_of(c) =~= new_text_of(r) + if x.0 != SpanTag::Deleted {
                x.1
            } else {
                Seq::empty()
            });
        } else {
            assert(r.push(x).drop_last() =~= r);
        }
    }
}

/// Law: after merging, no two adjacent spans have the same tag.
pub proof fn lemma_coalesce_alternates(spans: Seq<SpanModel>)
    ensures
        forall|i: int| 0 <= i < coalesce(spans).len() - 1 ==> (#[trigger] coalesce(spans)[i]).0 != coalesce(spans)[i + 1].0,
    decreases spans.len(),
{
    if spans.len() > 0 {
        lemma_coalesce_alternates(spans.drop_last());
        let r = coalesce(spans.drop_last());
        let x = spans.last();
        let c = coalesce(spans);
        if r.len() > 0 && r.last().0 == x.0 {
            assert forall|i: int| 0 <= i < c.len() - 1 implies (#[trigger] c[i]).0 != c[i + 1].0 by {
                assert(c[i] == r[i]);
                if i + 1 < c.len() - 1 {
                    assert(c[i + 1] == r[i + 1]);
                } else {
                    assert(c[i + 1].0 == r[i + 1].0);
                }
            }
        } else {
            assert forall|i: int| 0 <= i < c.len() - 1 implies (#[trigger] c[i]).0 != c[i + 1].0 by {
                assert(c[i] == r[i]);
                if i + 1 < c.len() - 1 {
                    assert(c[i + 1] == r[i + 1]);
                }
            }
        }
    }
}

/// One span per token of `x[start..start + len]`, all with tag `tag`.
pub open spec fn token_spans(tag: SpanTag, x: Seq<Seq<char>>, start: int, len: nat) -> Seq<SpanModel> {
    Seq::new(len, |k: int| (tag, x[start + k]))
}

pub proof fn lemma_token_spans_sides(tag: SpanTag, x: Seq<Seq<char>>, start: int, len: nat)
    requires
        0 <= start,
        start + len <= x.len(),
    ensures
        old_text_of(token_spans(tag, x, start, len)) == if tag != SpanTag::Inserted {
            concat(x.subrange(start, start + len))
        } else {
            Seq::empty()
        },
        new_text_of(token_spans(tag, x, start, len)) == if tag != SpanTag::Deleted {
            concat(x.subrange(start, start + len))
        } else {
            Seq::empty()
        },
    decreases len,
{
    if len > 0 {
        let l1 = (len - 1) as nat;
        lemma_token_spans_sides(tag, x, start, l1);
        assert(token_spans(tag, x, start, len).drop_last() =~= token_spans(tag, x, start, l1));
        assert(x.subrange(start, start + len) =~= x.subrange(start, start + l1).push(x[start + l1]));
        lemma_concat_push(x.subrange(start, start + l1), x[start + l1]);
    } else {
        assert(x.subrange(start, start + len) =~= Seq::<Seq<char>>::empty());
        assert(concat(Seq::<Seq<char>>::empty()) =~= Seq::<char>::empty());
    }
}

pub proof fn lemma_concat_split(x: Seq<Seq<char>>, a: int, b: int)
    requires
        0 <= a <= b <= x.len(),
    ensures
        concat(x.take(b)) == concat(x.take(a)) + concat(x.subrange(a, b)),
{
    assert(x.take(b) =~= x.take(a) + x.subrange(a, b));
    lemma_concat_append(x.take(a), x.subrange(a, b));
}

/// The spans of an edit script spell out the old tokens on the old side
/// and the new tokens on the new side, up to how far the first `k`
/// operations reach.
pub proof fn lemma_all_changes_sides(ops: Seq<EditOp>, old: Seq<Seq<char>>, new: Seq<Seq<char>>, k: int)
    requires
        ops_tile(ops, old.len() as int, new.len() as int),
        equal_ops_agree(ops, old, new),
        0 <= k <= ops.len(),
    ensures
        old_text_of(all_changes(ops.take(k), old, new)) == concat(old.take(old_covered(ops, k))),
        new_text_of(all_changes(ops.take(k), old, new)) == concat(new.take(new_covered(ops, k))),
    decreases k,
{
    if k == 0 {
        assert(ops.take(0) =~= Seq::<EditOp>::empty());
        assert(old.take(0) =~= Seq::<Seq<char>>::empty());
        assert(new.take(0) =~= Seq::<Seq<char>>::empty());
        assert(concat(Seq::<Seq<char>>::empty()) =~= Seq::<char>::empty());
    } else {
        lemma_all_changes_sides(ops, old, new, k - 1);
        lemma_tile_bounds(ops, old.len() as int, new.len() as int, k - 1);
        assert(ops.take(k).drop_last() =~= ops.take(k - 1));
        assert(ops.take(k).last() == ops[k - 1]);
        let op = ops[k - 1];
        let a = all_changes(ops.take(k - 1), old, new);
        let c = changes_of_op(op, old, new);
        lemma_sides_append(a, c);
        let oa = old_covered(ops, k - 1);
        let na = new_covered(ops, k - 1);
        lemma_concat_split(old, oa, oa + op_old_len(op));
        lemma_concat_split(new, na, na + op_new_len(op));
        match op {
            EditOp::Equal { old_index, new_index, len } => {
                assert(c =~= token_spans(SpanTag::Equal, old, old_index as int, len as nat));
                lemma_token_spans_sides(SpanTag::Equal, old, old_index as int, len as nat);
                assert(old.subrange(old_index as int, old_index + len) == new.subrange(new_index as int, new_index + len));
            },
            EditOp::Delete { old_index, old_len, .. } => {
                assert(c =~= token_spans(SpanTag::Deleted, old, old_index as int, old_len as nat));
                lemma_token_spans_sides(SpanTag::Deleted, old, old_index as int, old_len as nat);
                assert(new.subrange(na, na) =~= Seq::<Seq<char>>::empty());
                assert(concat(Seq::<Seq<char>>::empty()) =~= Seq::<char>::empty());
            },
            EditOp::Insert { new_index, new_len, .. } => {
                assert(c =~= token_spans(SpanTag::Inserted, new, new_index as int, new_len as nat));
                lemma_token_spans_sides(SpanTag::Inserted, new, new_index as int, new_len as nat);
                assert(old.subrange(oa, oa) =~= Seq::<Seq<char>>::empty());
                assert(concat(Seq::<Seq<char>>::empty()) =~= Seq::<char>::empty());
            },
            EditOp::Replace { old_index, old_len, new_index, new_len } => {
                let d = token_spans(SpanTag::Deleted, old, old_index as int, old_len as nat);
                let i = token_spans(SpanTag::Inserted, new, new_index as int, new_len as nat);
                assert(c =~= d + i);
                lemma_sides_append(d, i);
                lemma_token_spans_sides(SpanTag::Deleted, old, old_index as int, old_len as nat);
                lemma_token_spans_sides(SpanTag::Inserted, new, new_index as int, new_len as nat);
            },
        }
    }
}

/// Law: a word-level diff loses nothing. For an edit script that walks
/// both token sequences (as similar's scripts do), the equal and deleted
/// spans spell out the old tokens, and the equal and inserted spans the new
/// tokens.
pub proof fn lemma_spans_reconstruct(ops: Seq<EditOp>, old: Seq<Seq<char>>, new: Seq<Seq<char>>)
    requires
        ops_tile(ops, old.len() as int, new.len() as int),
        equal_ops_agree(ops, old, new),
    ensures
        old_text_of(coalesce(all_changes(ops, old, new))) == concat(old),
        new_text_of(coalesce(all_changes(ops, old, new))) == concat(new),
{
    lemma_all_changes_sides(ops, old, new, ops.len() as int);
    assert(ops.take(ops.len() as int) =~= ops);
    assert(old.take(old.len() as int) =~= old);
    assert(new.take(new.len() as int) =~= new);
    lemma_coalesce_sides(all_changes(ops, old, new));
}

/// The spans of a text compared with itself: one equal span, or none for
/// an empty text.
pub open spec fn unchanged_spans(t: Seq<char>) -> Seq<SpanModel> {
    if t.len() == 0 {
        Seq::empty()
    } else {
        seq![(SpanTag::Equal, t)]
    }
}

proof fn lemma_all_changes_equal(ops: Seq<EditOp>, x: Seq<Seq<char>>, k: int)
    requires
        ops_tile(ops, x.len() as int, x.len() as int),
        all_equal(ops),
        0 <= k <= ops.len(),
    ensures
        0 <= old_covered(ops, k) <= x.len(),
        all_changes(ops.take(k), x, x) == token_spans(SpanTag::Equal, x, 0, old_covered(ops, k) as nat),
    decreases k,
{
    if k == 0 {
        assert(ops.take(0) =~= Seq::<EditOp>::empty());
        assert(token_spans(SpanTag::Equal, x, 0, 0) =~= Seq::<SpanModel>::empty());
    } else {
        lemma_all_changes_equal(ops, x, k - 1);
        lemma_tile_bounds(ops, x.len() as int, x.len() as int, k - 1);
        let op = ops[k - 1];
        assert(op is Equal);
        assert(ops.take(k).drop_last() =~= ops.take(k - 1));
        assert(ops.take(k).last() == op);
        let a = old_covered(ops, k - 1);
        assert(old_covered(ops, k) == a + op_old_len(op));
        assert(token_spans(SpanTag::Equal, x, 0, (a + op_old_len(op)) as nat) =~= token_spans(SpanTag::Equal, x, 0, a as nat)
            + changes_of_op(op, x, x));
    }
}

proof fn lemma_coalesce_equal(x: Seq<Seq<char>>, n: nat)
    requires
        n <= x.len(),
    ensures
        coalesce(token_spans(SpanTag::Equal, x, 0, n)) == if n == 0 {
            Seq::<SpanModel>::empty()
        } else {
            seq![(SpanTag::Equal, concat(x.take(n as int)))]
        },
    decreases n,
{
    if n > 0 {
        let m = (n - 1) as nat;
        lemma_coalesce_equal(x, m);
        let t = token_spans(SpanTag::Equal, x, 0, n);
        assert(t.drop_last() =~= token_spans(SpanTag::Equal, x, 0, m));
        assert(x.take(n as int) =~= x.take(m as int).push(x[m as int]));
        lemma_concat_push(x.take(m as int), x[m as int]);
        if m == 0 {
            assert(x.take(0) =~= Seq::<Seq<char>>::empty());
            assert(concat(Seq::<Seq<char>>::empty()) =~= Seq::<char>::empty());
            assert(Seq::<char>::empty() + x[0] =~= x[0]);
        }
    }
}

/// Law: a token edit script made only of `Equal` operations (which similar
/// gives for two equal token sequences) yields a single equal span of the
/// whole text, or none for no tokens.
pub proof fn lemma_same_tokens_unchanged(ops: Seq<EditOp>, x: Seq<Seq<char>>)
    requires
        ops_tile(ops, x.len() as int, x.len() as int),
        all_equal(ops),
    ensures
        coalesce(all_changes(ops, x, x)) == if x.len() == 0 {
            Seq::<SpanModel>::empty()
        } else {
            seq![(SpanTag::Equal, concat(x))]
        },
{
    lemma_all_changes_equal(ops, x, ops.len() as int);
    assert(ops.take(ops.len() as int) =~= ops);
    lemma_coalesce_equal(x, x.len());
    assert(x.take(x.len() as int) =~= x);
}

/// Every span has a non-empty text.
pub open spec fn nonempty_texts(spans: Seq<SpanModel>) -> bool {
    forall|i: int| 0 <= i < spans.len() ==> (#[trigger] spans[i]).1.len() > 0
}

/// The spans of an edit script over non-empty tokens are non-empty.
pub proof fn lemma_all_changes_nonempty(ops: Seq<EditOp>, old: Seq<Seq<char>>, new: Seq<Seq<char>>, k: int)
    requires
        ops_tile(ops, old.len() as int, new.len() as int),
        forall|i: int| 0 <= i < old.len() ==> (#[trigger] old[i]).len() > 0,
        forall|i: int| 0 <= i < new.len() ==> (#[trigger] new[i]).len() > 0,
        0 <= k <= ops.len(),
    ensures
        nonempty_texts(all_changes(ops.take(k), old, new)),
    decreases k,
{
    if k > 0 {
        lemma_all_changes_nonempty(ops, old, new, k - 1);
        lemma_tile_bounds(ops, old.len() as int, new.len() as int, k - 1);
        assert(ops.take(k).drop_last() =~= ops.take(k - 1));
        assert(ops.take(k).last() == ops[k - 1]);
        let a = all_changes(ops.take(k - 1), old, new);
        let c = changes_of_op(ops[k - 1], old, new);
        let r = a + c;
        assert forall|i: int| 0 <= i < r.len() implies (#[trigger] r[i]).1.len() > 0 by {
            if i < a.len() {
                assert(r[i] == a[i]);
            } else {
                assert(r[i] == c[i - a.len()]);
            }
        }
    }
}

/// Merging spans with non-empty texts gives spans with non-empty texts.
pub proof fn lemma_coalesce_nonempty(spans: Seq<SpanModel>)
    requires
        nonempty_texts(spans),
    ensures
        nonempty_texts(coalesce(spans)),
    decreases spans.len(),
{
    if spans.len() > 0 {
        let rest = spans.drop_last();
        assert forall|i: int| 0 <= i < rest.len() implies (#[trigger] rest[i]).1.len() > 0 by {
            assert(rest[i] == spans[i]);
        }
        lemma_coalesce_nonempty(rest);
        let r = coalesce(rest);
        let x = spans.last();
        let c = coalesce(spans);
        assert(x.1.len() > 0);
        assert forall|i: int| 0 <= i < c.len() implies (#[trigger] c[i]).1.len() > 0 by {
            if i < r.len() {
                assert(r[i].1.len() > 0);
            }
        }
    }
}

/// What a token edit script of the kind similar gives (walking both token
/// sequences, pairing equal tokens, all `Equal` for equal sequences) yields
/// once expanded and merged: both texts spelled out, alternating tags,
/// no empty span, and one equal span for a text compared with itself.
proof fn lemma_word_diff_facts(ops: Seq<EditOp>, old_text: Seq<char>, new_text: Seq<char>)
    requires
        ops_tile(ops, tokenize(old_text).len() as int, tokenize(new_text).len() as int),
        equal_ops_agree(ops, tokenize(old_text), tokenize(new_text)),
        tokenize(old_text) == tokenize(new_text) ==> all_equal(ops),
    ensures
        old_text_of(coalesce(all_changes(ops, tokenize(old_text), tokenize(new_text)))) == old_text,
        new_text_of(coalesce(all_changes(ops, tokenize(old_text), tokenize(new_text)))) == new_text,
        forall|i: int|
            0 <= i < coalesce(all_changes(ops, tokenize(old_text), tokenize(new_text))).len() - 1 ==> (
            #[trigger] coalesce(all_changes(ops, tokenize(old_text), tokenize(new_text)))[i]).0 != coalesce(
                all_changes(ops, tokenize(old_text), tokenize(new_text)),
            )[i + 1].0,
        nonempty_texts(coalesce(all_changes(ops, tokenize(old_text), tokenize(new_text)))),
        old_text == new_text ==> coalesce(all_changes(ops, tokenize(old_text), tokenize(new_text)))
            == unchanged_spans(old_text),
{
    let ta = tokenize(old_text);
    let tb = tokenize(new_text);
    lemma_spans_reconstruct(ops, ta, tb);
    lemma_tokenize_concat(old_text);
    lemma_tokenize_concat(new_text);
    lemma_coalesce_alternates(all_changes(ops, ta, tb));
    lemma_all_changes_nonempty(ops, ta, tb, ops.len() as int);
    assert(ops.take(ops.len() as int) =~= ops);
    lemma_coalesce_nonempty(all_changes(ops, ta, tb));
    if old_text == new_text {
        lemma_same_tokens_unchanged(ops, ta);
        if old_text.len() > 0 {
            assert(ta.len() > 0) by {
                if ta.len() == 0 {
                    assert(concat(ta) =~= Seq::<char>::empty());
                }
            }
        } else {
            assert(tokenize(old_text) =~= Seq::<Seq<char>>::empty());
        }
        assert(ta.take(ta.len() as int) =~= ta);
    }
}

/// All the texts of a span sequence, in order.
pub open spec fn span_texts(spans: Seq<SpanModel>) -> Seq<char>
    decreases spans.len(),
{
    if spans.len() == 0 {
        Seq::empty()
    } else {
        span_texts(spans.drop_last()) + spans.last().1
    }
}

/// Index of the run (maximal stretch of consecutive spans with the same
/// tag) that span `i` belongs to.
pub open spec fn run_index(s: Seq<SpanModel>, i: int) -> int
    decreases i,
{
    if i <= 0 {
        0
    } else {
        run_index(s, i - 1) + if s[i].0 != s[i - 1].0 {
            1int
        } else {
            0int
        }
    }
}

/// The texts of the first `n` spans that belong to run `j`, in order.
pub open spec fn run_text(s: Seq<SpanModel>, j: int, n: int) -> Seq<char>
    decreases n,
{
    if n <= 0 {
        Seq::empty()
    } else {
        run_text(s, j, n - 1) + if run_index(s, n - 1) == j {
            s[n - 1].1
        } else {
            Seq::empty()
        }
    }
}

proof fn lemma_run_index_prefix(s: Seq<SpanModel>, t: Seq<SpanModel>, i: int)
    requires
        0 <= i < t.len() <= s.len(),
        forall|k: int| 0 <= k < t.len() ==> s[k] == t[k],
    ensures
        run_index(s, i) == run_index(t, i),
        0 <= run_index(s, i) <= i,
    decreases i,
{
    if i > 0 {
        lemma_run_index_prefix(s, t, i - 1);
    }
}

proof fn lemma_run_index_monotone(s: Seq<SpanModel>, i: int, k: int)
    requires
        0 <= i <= k,
    ensures
        run_index(s, i) <= run_index(s, k),
    decreases k - i,
{
    if i < k {
        lemma_run_index_monotone(s, i, k - 1);
    }
}

proof fn lemma_run_text_prefix(s: Seq<SpanModel>, t: Seq<SpanModel>, j: int, n: int)
    requires
        0 <= n <= t.len() <= s.len(),
        forall|k: int| 0 <= k < t.len() ==> s[k] == t[k],
    ensures
        run_text(s, j, n) == run_text(t, j, n),
    decreases n,
{
    if n > 0 {
        lemma_run_text_prefix(s, t, j, n - 1);
        lemma_run_index_prefix(s, t, n - 1);
    }
}

proof fn lemma_run_text_other(s: Seq<SpanModel>, j: int, n: int)
    requires
        0 <= n,
        n > 0 ==> run_index(s, n - 1) < j,
    ensures
        run_text(s, j, n) == Seq::<char>::empty(),
    decreases n,
{
    if n > 0 {
        if n > 1 {
            lemma_run_index_monotone(s, n - 2, n - 1);
        }
        lemma_run_text_other(s, j, n - 1);
        assert(run_text(s, j, n) =~= Seq::<char>::empty());
    }
}

/// Law: merging spans keeps all texts, read in order.
pub proof fn lemma_coalesce_texts(s: Seq<SpanModel>)
    ensures
        span_texts(coalesce(s)) == span_texts(s),
    decreases s.len(),
{
    if s.len() > 0 {
        let t = s.drop_last();
        let x = s.last();
        lemma_coalesce_texts(t);
        let r = coalesce(t);
        let c = coalesce(s);
        if r.len() > 0 && r.last().0 == x.0 {
            assert(span_texts(r) == span_texts(r.drop_last()) + r.last().1);
            assert(c.drop_last() =~= r.drop_last());
            assert(span_texts(c) =~= span_texts(r.drop_last()) + (r.last().1 + x.1));
        } else {
            assert(c.drop_last() =~= r);
        }
    }
}

/// The facts that `lemma_coalesce_runs` states of a sequence.
pub open spec fn runs_coalesced(s: Seq<SpanModel>) -> bool {
    &&& coalesce(s).len() == if s.len() == 0 {
        0
    } else {
        run_index(s, s.len() - 1) + 1
    }
    &&& forall|i: int| 0 <= i < s.len() ==> coalesce(s)[run_index(s, i)].0 == (#[trigger] s[i]).0
    &&& forall|j: int| 0 <= j < coalesce(s).len() ==> (#[trigger] coalesce(s)[j]).1 == run_text(s, j, s.len() as int)
}

proof fn lemma_runs_step(s: Seq<SpanModel>)
    requires
        s.len() >= 2,
        runs_coalesced(s.drop_last()),
    ensures
        runs_coalesced(s),
{
    let n = s.len() as int;
    let t = s.drop_last();
    let x = s.last();
    let r = coalesce(t);
    let c = coalesce(s);
    let m = r.len() as int;
    assert(x == s[n - 1]);
    assert forall|k: int| 0 <= k < t.len() implies s[k] == t[k] by {}
    lemma_run_index_prefix(s, t, n - 2);
    assert(m == run_index(s, n - 2) + 1);
    assert(t[n - 2] == s[n - 2]);
    assert(r[run_index(t, n - 2)].0 == t[n - 2].0);
    let merged = x.0 == s[n - 2].0;
    if merged {
        assert(run_index(s, n - 1) == m - 1);
        assert(c == r.drop_last().push((x.0, r.last().1 + x.1)));
    } else {
        assert(run_index(s, n - 1) == m);
        assert(c == r.push(x));
    }
    assert forall|i: int| 0 <= i < n implies c[run_index(s, i)].0 == (#[trigger] s[i]).0 by {
        if i < n - 1 {
            lemma_run_index_prefix(s, t, i);
            lemma_run_index_monotone(s, i, n - 2);
            assert(s[i] == t[i]);
            assert(r[run_index(t, i)].0 == t[i].0);
        }
    }
    assert forall|j: int| 0 <= j < c.len() implies (#[trigger] c[j]).1 == run_text(s, j, n) by {
        lemma_run_text_prefix(s, t, j, n - 1);
        if merged {
            if j < m - 1 {
                assert(c[j] == r[j]);
            }
        } else {
            if j < m {
                assert(c[j] == r[j]);
            } else {
                lemma_run_text_other(s, m, n - 1);
                assert(run_text(s, m, n) =~= x.1);
            }
        }
    }
}

/// Law: merging spans gives one span per run of consecutive spans with the
/// same tag, in order: the span of run `j` has the tag of the run's spans
/// and the concatenation of their texts (so all texts, read in order, stay
/// the same: `lemma_coalesce_texts`).
pub proof fn lemma_coalesce_runs(s: Seq<SpanModel>)
    ensures
        runs_coalesced(s),
    decreases s.len(),
{
    if s.len() == 1 {
        let x = s[0];
        assert(coalesce(s.drop_last()).len() == 0);
        assert(coalesce(s) =~= seq![x]);
        assert(run_text(s, 0, 0) =~= Seq::<char>::empty());
        assert(run_text(s, 0, 1) =~= x.1);
    } else if s.len() >= 2 {
        lemma_coalesce_runs(s.drop_last());
        lemma_runs_step(s);
    }
}

} // verus!
