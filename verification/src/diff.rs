//! Block-level diff of two documents.
//!
//! Blocks are aligned with the Patience diff of their signatures. Where the
//! alignment replaces a run of old blocks by a run of new ones, blocks of the
//! same kind whose texts are similar enough are paired greedily, most similar
//! first, and each pair is diffed word by word.

use vstd::prelude::*;
use crate::{
    colon_free_term, lemma_signature_injective,
    Block, BlockKind, BlockModel, DiffResult, ResultModel, block_model, blocks_model, results_model, result_model,
    spec_diff_text, spec_is_atomic, spec_kind, spec_signature,
};
use crate::ops::{
    diff_chars, diff_slices, lemma_covered_monotone, lemma_tile_bounds, new_covered,
    old_covered, op_new_len, op_old_len, ops_tile, equal_ops_agree, slice_diff_ops, all_equal,
    strings_view, char_diff_ops, DiffAlgorithm, EditOp,
};
use crate::words::{new_text_of, word_diff, word_diff_spans};

pub use crate::tokens::tokenize_mixed;
pub use crate::words::coalesce_spans;

verus! {

/// The signatures of a sequence of blocks.
pub open spec fn signatures(blocks: Seq<BlockModel>) -> Seq<Seq<char>> {
    blocks.map_values(|b: BlockModel| spec_signature(b))
}

/// Number of elements that the `Equal` operations of a script match.
pub open spec fn equal_total(ops: Seq<EditOp>) -> int
    decreases ops.len(),
{
    if ops.len() == 0 {
        0
    } else {
        equal_total(ops.drop_last()) + match ops.last() {
            EditOp::Equal { len, .. } => len as int,
            _ => 0,
        }
    }
}

/// A pairing candidate: old index, new index, number of matching characters
/// and total number of characters of the two texts.
pub type Candidate = (usize, usize, usize, usize);

/// Similarity of two texts as (matching characters, total characters), the
/// quantities whose quotient `2 * matching / total` is the similarity ratio
/// (1 for two empty texts).
pub open spec fn similarity(a: Seq<char>, b: Seq<char>) -> (int, int) {
    (equal_total(char_diff_ops(a, b)), (a.len() + b.len()) as int)
}

/// The similarity ratio is at least one half.
pub open spec fn similar_enough(m: int, t: int) -> bool {
    t == 0 || 4 * m >= t
}

/// Old block `oi` and new block `ni` may be paired: neither is atomic, both
/// have text, they are of the same kind, and their texts are similar enough.
pub open spec fn pair_candidate(old: Seq<BlockModel>, new: Seq<BlockModel>, oi: int, ni: int) -> Option<Candidate> {
    let o = old[oi];
    let n = new[ni];
    if spec_is_atomic(o) || spec_diff_text(o) is None || spec_is_atomic(n) || spec_kind(o) != spec_kind(n)
        || spec_diff_text(n) is None {
        None
    } else {
        let (m, t) = similarity(spec_diff_text(o)->0, spec_diff_text(n)->0);
        if t <= usize::MAX && similar_enough(m, t) {
            Some((oi as usize, ni as usize, m as usize, t as usize))
        } else {
            None
        }
    }
}

pub open spec fn opt_seq<A>(o: Option<A>) -> Seq<A> {
    match o {
        Some(a) => seq![a],
        None => Seq::empty(),
    }
}

/// Candidates pairing old block `oi` with the first `j` new blocks.
pub open spec fn row_candidates(old: Seq<BlockModel>, new: Seq<BlockModel>, oi: int, j: int) -> Seq<Candidate>
    decreases j,
{
    if j <= 0 {
        Seq::empty()
    } else {
        row_candidates(old, new, oi, j - 1) + opt_seq(pair_candidate(old, new, oi, j - 1))
    }
}

/// All candidates of the first `i` old blocks, in document order.
pub open spec fn candidates(old: Seq<BlockModel>, new: Seq<BlockModel>, i: int) -> Seq<Candidate>
    decreases i,
{
    if i <= 0 {
        Seq::empty()
    } else {
        candidates(old, new, i - 1) + row_candidates(old, new, i - 1, new.len() as int)
    }
}

pub open spec fn ratio_num(c: Candidate) -> int {
    if c.3 == 0 {
        1
    } else {
        2 * c.2
    }
}

pub open spec fn ratio_den(c: Candidate) -> int {
    if c.3 == 0 {
        1
    } else {
        c.3 as int
    }
}

/// `x` has a strictly higher similarity ratio than `y`.
pub open spec fn more_similar(x: Candidate, y: Candidate) -> bool {
    ratio_num(x) * ratio_den(y) > ratio_num(y) * ratio_den(x)
}

/// Where `x` goes in `s`: before the first element it is strictly more
/// similar than.
pub open spec fn insert_pos(s: Seq<Candidate>, x: Candidate, p: int) -> int
    decreases s.len() - p,
{
    if 0 <= p < s.len() && !more_similar(x, s[p]) {
        insert_pos(s, x, p + 1)
    } else {
        p
    }
}

/// The candidates in descending order of similarity; candidates of equal
/// similarity keep their order (a stable sort).
pub open spec fn sort_by_similarity(c: Seq<Candidate>) -> Seq<Candidate>
    decreases c.len(),
{
    if c.len() == 0 {
        Seq::empty()
    } else {
        let s = sort_by_similarity(c.drop_last());
        s.insert(insert_pos(s, c.last(), 0), c.last())
    }
}

/// Greedy matching: candidates are taken in order, each one pairing its two
/// blocks if neither is paired yet. Returns, for each old block, the new
/// block it is paired with, and for each new block, the old one.
pub open spec fn greedy(sorted: Seq<Candidate>, n_old: nat, n_new: nat) -> (Seq<Option<usize>>, Seq<Option<usize>>)
    decreases sorted.len(),
{
    if sorted.len() == 0 {
        (Seq::new(n_old, |i: int| None::<usize>), Seq::new(n_new, |i: int| None::<usize>))
    } else {
        let (mo, mn) = greedy(sorted.drop_last(), n_old, n_new);
        let c = sorted.last();
        if mo[c.0 as int] is None && mn[c.1 as int] is None {
            (mo.update(c.0 as int, Some(c.1)), mn.update(c.1 as int, Some(c.0)))
        } else {
            (mo, mn)
        }
    }
}

/// The first `k` old blocks that stay unpaired, as deletions.
pub open spec fn unpaired_deleted(old: Seq<BlockModel>, mo: Seq<Option<usize>>, k: int) -> Seq<ResultModel>
    decreases k,
{
    if k <= 0 {
        Seq::empty()
    } else {
        unpaired_deleted(old, mo, k - 1) + if mo[k - 1] is None {
            seq![ResultModel::Deleted(old[k - 1])]
        } else {
            Seq::empty()
        }
    }
}

/// The result for the first `k` new blocks: a word-level diff against the
/// paired old block, or an addition.
pub open spec fn new_side(old: Seq<BlockModel>, new: Seq<BlockModel>, mn: Seq<Option<usize>>, k: int) -> Seq<ResultModel>
    decreases k,
{
    if k <= 0 {
        Seq::empty()
    } else {
        new_side(old, new, mn, k - 1) + seq![
            match mn[k - 1] {
                Some(oi) => ResultModel::Modified(
                    spec_kind(old[oi as int]),
                    word_diff_spans(spec_diff_text(old[oi as int])->0, spec_diff_text(new[k - 1])->0),
                ),
                None => ResultModel::Added(new[k - 1]),
            },
        ]
    }
}

/// The results for a replaced run of blocks: unpaired old blocks are
/// deleted, in document order; then each new block, in order, is either
/// diffed against its partner or added.
pub open spec fn replace_results(old: Seq<BlockModel>, new: Seq<BlockModel>) -> Seq<ResultModel> {
    let (mo, mn) = matching(old, new);
    unpaired_deleted(old, mo, old.len() as int) + new_side(old, new, mn, new.len() as int)
}

/// The pairing of a replaced run: the candidates, most similar first,
/// matched greedily.
pub open spec fn matching(old: Seq<BlockModel>, new: Seq<BlockModel>) -> (Seq<Option<usize>>, Seq<Option<usize>>) {
    greedy(sort_by_similarity(candidates(old, new, old.len() as int)), old.len(), new.len())
}

/// The results for one operation of the block-level edit script.
pub open spec fn results_of_op(old: Seq<BlockModel>, new: Seq<BlockModel>, op: EditOp) -> Seq<ResultModel> {
    match op {
        EditOp::Equal { old_index, len, .. } => Seq::new(
            len as nat,
            |k: int| ResultModel::Unchanged(old[old_index + k]),
        ),
        EditOp::Delete { old_index, old_len, .. } => Seq::new(
            old_len as nat,
            |k: int| ResultModel::Deleted(old[old_index + k]),
        ),
        EditOp::Insert { new_index, new_len, .. } => Seq::new(
            new_len as nat,
            |k: int| ResultModel::Added(new[new_index + k]),
        ),
        EditOp::Replace { old_index, old_len, new_index, new_len } => replace_results(
            old.subrange(old_index as int, old_index + old_len),
            new.subrange(new_index as int, new_index + new_len),
        ),
    }
}

/// The results for a whole block-level edit script.
pub open spec fn results_of_ops(old: Seq<BlockModel>, new: Seq<BlockModel>, ops: Seq<EditOp>) -> Seq<ResultModel>
    decreases ops.len(),
{
    if ops.len() == 0 {
        Seq::empty()
    } else {
        results_of_ops(old, new, ops.drop_last()) + results_of_op(old, new, ops.last())
    }
}

/// The diff of two block sequences.
pub open spec fn spec_diff(old: Seq<BlockModel>, new: Seq<BlockModel>) -> Seq<ResultModel> {
    results_of_ops(old, new, slice_diff_ops(DiffAlgorithm::Patience, signatures(old), signatures(new)))
}


// ---------------------------------------------------------------------------
// Facts about the specifications.

pub proof fn lemma_row_unusable_old(old: Seq<BlockModel>, new: Seq<BlockModel>, oi: int, j: int)
    requires
        spec_is_atomic(old[oi]) || spec_diff_text(old[oi]) is None,
    ensures
        row_candidates(old, new, oi, j) == Seq::<Candidate>::empty(),
    decreases j,
{
    if j > 0 {
        lemma_row_unusable_old(old, new, oi, j - 1);
        assert(row_candidates(old, new, oi, j) =~= Seq::<Candidate>::empty());
    }
}

/// Every candidate of row `oi` pairs `oi` with an earlier new block, and
/// is what `pair_candidate` gives for that pair.
pub proof fn lemma_row_props(old: Seq<BlockModel>, new: Seq<BlockModel>, oi: int, j: int)
    requires
        0 <= oi < old.len() <= usize::MAX,
        0 <= j <= new.len() <= usize::MAX,
    ensures
        forall|k: int|
            0 <= k < row_candidates(old, new, oi, j).len() ==> {
                let c = #[trigger] row_candidates(old, new, oi, j)[k];
                &&& c.0 == oi
                &&& c.1 < j
                &&& pair_candidate(old, new, c.0 as int, c.1 as int) == Some(c)
            },
    decreases j,
{
    if j > 0 {
        lemma_row_props(old, new, oi, j - 1);
        let r = row_candidates(old, new, oi, j);
        let r0 = row_candidates(old, new, oi, j - 1);
        assert forall|k: int| 0 <= k < r.len() implies {
            let c = #[trigger] r[k];
            &&& c.0 == oi
            &&& c.1 < j
            &&& pair_candidate(old, new, c.0 as int, c.1 as int) == Some(c)
        } by {
            if k < r0.len() {
                assert(r[k] == r0[k]);
            }
        }
    }
}

/// Every candidate pairs blocks within range, and is what `pair_candidate`
/// gives for that pair.
pub proof fn lemma_candidates_props(old: Seq<BlockModel>, new: Seq<BlockModel>, i: int)
    requires
        0 <= i <= old.len() <= usize::MAX,
        new.len() <= usize::MAX,
    ensures
        forall|k: int|
            0 <= k < candidates(old, new, i).len() ==> {
                let c = #[trigger] candidates(old, new, i)[k];
                &&& c.0 < i
                &&& c.1 < new.len()
                &&& pair_candidate(old, new, c.0 as int, c.1 as int) == Some(c)
            },
    decreases i,
{
    if i > 0 {
        lemma_candidates_props(old, new, i - 1);
        lemma_row_props(old, new, i - 1, new.len() as int);
        let a = candidates(old, new, i - 1);
        let r = row_candidates(old, new, i - 1, new.len() as int);
        let c = candidates(old, new, i);
        assert forall|k: int| 0 <= k < c.len() implies {
            let x = #[trigger] c[k];
            &&& x.0 < i
            &&& x.1 < new.len()
            &&& pair_candidate(old, new, x.0 as int, x.1 as int) == Some(x)
        } by {
            if k < a.len() {
                assert(c[k] == a[k]);
            } else {
                assert(c[k] == r[k - a.len()]);
            }
        }
    }
}

pub proof fn lemma_insert_pos_bounds(s: Seq<Candidate>, x: Candidate, p: int)
    requires
        0 <= p <= s.len(),
    ensures
        p <= insert_pos(s, x, p) <= s.len(),
        forall|k: int| p <= k < insert_pos(s, x, p) ==> !more_similar(x, #[trigger] s[k]),
        insert_pos(s, x, p) < s.len() ==> more_similar(x, s[insert_pos(s, x, p)]),
    decreases s.len() - p,
{
    if p < s.len() && !more_similar(x, s[p]) {
        lemma_insert_pos_bounds(s, x, p + 1);
    }
}

/// Sorting keeps the length, and every sorted element comes from the input.
pub proof fn lemma_sort_elements(c: Seq<Candidate>)
    ensures
        sort_by_similarity(c).len() == c.len(),
        forall|k: int| 0 <= k < c.len() ==> c.contains(#[trigger] sort_by_similarity(c)[k]),
    decreases c.len(),
{
    if c.len() > 0 {
        let s = sort_by_similarity(c.drop_last());
        lemma_sort_elements(c.drop_last());
        lemma_insert_pos_bounds(s, c.last(), 0);
        let p = insert_pos(s, c.last(), 0);
        let r = sort_by_similarity(c);
        assert forall|k: int| 0 <= k < c.len() implies c.contains(#[trigger] r[k]) by {
            if k < p {
                assert(r[k] == s[k]);
                assert(c.drop_last().contains(s[k]));
                let w = choose|w: int| 0 <= w < c.drop_last().len() && c.drop_last()[w] == s[k];
                assert(c[w] == s[k]);
            } else if k == p {
                assert(c[c.len() - 1] == r[k]);
            } else {
                assert(r[k] == s[k - 1]);
                assert(c.drop_last().contains(s[k - 1]));
                let w = choose|w: int| 0 <= w < c.drop_last().len() && c.drop_last()[w] == s[k - 1];
                assert(c[w] == s[k - 1]);
            }
        }
    }
}

/// The greedy matching pairs only blocks that some candidate pairs, and
/// records each pair on both sides.
pub proof fn lemma_greedy_props(sorted: Seq<Candidate>, n_old: nat, n_new: nat)
    requires
        forall|k: int| 0 <= k < sorted.len() ==> (#[trigger] sorted[k]).0 < n_old && sorted[k].1 < n_new,
    ensures
        greedy(sorted, n_old, n_new).0.len() == n_old,
        greedy(sorted, n_old, n_new).1.len() == n_new,
        forall|ni: int|
            0 <= ni < n_new && (#[trigger] greedy(sorted, n_old, n_new).1[ni]) is Some ==> exists|k: int|
                0 <= k < sorted.len() && sorted[k].0 == greedy(sorted, n_old, n_new).1[ni]->0
                    && sorted[k].1 == ni,
    decreases sorted.len(),
{
    if sorted.len() > 0 {
        let rest = sorted.drop_last();
        assert forall|k: int| 0 <= k < rest.len() implies (#[trigger] rest[k]).0 < n_old && rest[k].1 < n_new by {
            assert(rest[k] == sorted[k]);
        }
        lemma_greedy_props(rest, n_old, n_new);
        let (mo, mn) = greedy(rest, n_old, n_new);
        let c = sorted.last();
        let g = greedy(sorted, n_old, n_new);
        assert forall|ni: int|
            0 <= ni < n_new && (#[trigger] g.1[ni]) is Some implies exists|k: int|
                0 <= k < sorted.len() && sorted[k].0 == g.1[ni]->0 && sorted[k].1 == ni by {
            if mo[c.0 as int] is None && mn[c.1 as int] is None && ni == c.1 {
                assert(sorted[sorted.len() - 1].1 == ni);
            } else {
                assert(g.1[ni] == mn[ni]);
                let k = choose|k: int| 0 <= k < rest.len() && rest[k].0 == mn[ni]->0 && rest[k].1 == ni;
                assert(sorted[k] == rest[k]);
            }
        }
    }
}

pub proof fn lemma_results_of_ops_push(old: Seq<BlockModel>, new: Seq<BlockModel>, ops: Seq<EditOp>, k: int)
    requires
        0 <= k < ops.len(),
    ensures
        results_of_ops(old, new, ops.take(k + 1)) == results_of_ops(old, new, ops.take(k)) + results_of_op(
            old,
            new,
            ops[k],
        ),
{
    assert(ops.take(k + 1).drop_last() =~= ops.take(k));
}

// ---------------------------------------------------------------------------
// Code.

/// Character-level similarity of two strings, as (matching characters,
/// total characters); `None` if the total does not fit in a `usize`.
pub fn text_similarity(a: &str, b: &str) -> (r: Option<(usize, usize)>)
    ensures
        r matches Some((m, t)) ==> m == similarity(a@, b@).0 && t == similarity(a@, b@).1 && 2 * m <= t,
        r is None ==> similarity(a@, b@).1 > usize::MAX,
        // A text is fully similar to itself.
        a@ == b@ ==> (r matches Some((m, t)) ==> 2 * m == t),
{
    let ops = diff_chars(a, b);
    proof {
        if a@ == b@ {
            lemma_equal_total_all_equal(ops@, ops@.len() as int);
            assert(ops@.take(ops@.len() as int) =~= ops@);
        }
    }
    similarity_from_ops(&ops, a.unicode_len(), b.unicode_len())
}

/// For a script of `Equal` operations only, the matched elements are all
/// the elements covered, on both sides.
proof fn lemma_equal_total_all_equal(ops: Seq<EditOp>, k: int)
    requires
        all_equal(ops),
        0 <= k <= ops.len(),
    ensures
        equal_total(ops.take(k)) == old_covered(ops, k),
        old_covered(ops, k) == new_covered(ops, k),
    decreases k,
{
    if k == 0 {
        assert(ops.take(0) =~= Seq::<EditOp>::empty());
    } else {
        lemma_equal_total_all_equal(ops, k - 1);
        assert(ops.take(k).drop_last() =~= ops.take(k - 1));
        assert(ops.take(k).last() == ops[k - 1]);
        assert(ops[k - 1] is Equal);
    }
}

/// Similarity of two texts of `la` and `lb` characters from their
/// character edit script: the number of characters its `Equal` operations
/// match, and `la + lb` (`None` if that does not fit in a `usize`).
pub fn similarity_from_ops(ops: &Vec<EditOp>, la: usize, lb: usize) -> (r: Option<(usize, usize)>)
    requires
        ops_tile(ops@, la as int, lb as int),
    ensures
        r matches Some((m, t)) ==> m == equal_total(ops@) && t == la + lb && 2 * m <= t,
        r is None ==> la + lb > usize::MAX,
{
    let n = ops.len();
    let mut m: usize = 0;
    let mut k: usize = 0;
    proof {
        assert forall|i: int| 0 <= i < ops@.len() implies op_old_len(#[trigger] ops@[i]) >= 0
            && op_new_len(ops@[i]) >= 0 by {}
    }
    while k < n
        invariant
            n == ops@.len(),
            k <= n,
            ops_tile(ops@, la as int, lb as int),
            forall|i: int| 0 <= i < ops@.len() ==> op_old_len(#[trigger] ops@[i]) >= 0 && op_new_len(ops@[i]) >= 0,
            m == equal_total(ops@.take(k as int)),
            m <= old_covered(ops@, k as int),
            m <= new_covered(ops@, k as int),
        decreases n - k,
    {
        proof {
            lemma_covered_monotone(ops@, k + 1, n as int);
            assert(ops@.take(k + 1).drop_last() =~= ops@.take(k as int));
        }
        match ops[k] {
            EditOp::Equal { len, .. } => {
                m = m + len;
            },
            _ => {},
        }
        k = k + 1;
    }
    assert(ops@.take(n as int) =~= ops@);
    match la.checked_add(lb) {
        Some(t) => Some((m, t)),
        None => None,
    }
}

fn more_similar_exec(x: Candidate, y: Candidate) -> (r: bool)
    requires
        2 * x.2 <= x.3,
        2 * y.2 <= y.3,
    ensures
        r == more_similar(x, y),
{
    let (xn, xd): (u128, u128) = if x.3 == 0 {
        (1, 1)
    } else {
        (2 * (x.2 as u128), x.3 as u128)
    };
    let (yn, yd): (u128, u128) = if y.3 == 0 {
        (1, 1)
    } else {
        (2 * (y.2 as u128), y.3 as u128)
    };
    assert(xn * yd <= 0xffff_ffff_ffff_ffffu128 * 0xffff_ffff_ffff_ffffu128) by (nonlinear_arith)
        requires
            xn <= 0xffff_ffff_ffff_ffffu128,
            yd <= 0xffff_ffff_ffff_ffffu128,
    ;
    assert(yn * xd <= 0xffff_ffff_ffff_ffffu128 * 0xffff_ffff_ffff_ffffu128) by (nonlinear_arith)
        requires
            yn <= 0xffff_ffff_ffff_ffffu128,
            xd <= 0xffff_ffff_ffff_ffffu128,
    ;
    xn * yd > yn * xd
}

/// Position where `x` is inserted into the already sorted `s`.
fn find_insert_pos(s: &Vec<Candidate>, x: Candidate) -> (p: usize)
    requires
        2 * x.2 <= x.3,
        forall|k: int| 0 <= k < s@.len() ==> 2 * (#[trigger] s@[k]).2 <= s@[k].3,
    ensures
        p == insert_pos(s@, x, 0),
        p <= s@.len(),
{
    let mut p: usize = 0;
    proof {
        lemma_insert_pos_bounds(s@, x, 0);
    }
    while p < s.len() && !more_similar_exec(x, s[p])
        invariant
            p <= s@.len(),
            2 * x.2 <= x.3,
            forall|k: int| 0 <= k < s@.len() ==> 2 * (#[trigger] s@[k]).2 <= s@[k].3,
            insert_pos(s@, x, p as int) == insert_pos(s@, x, 0),
        decreases s@.len() - p,
    {
        p = p + 1;
    }
    p
}

/// Stable sort of the candidates by descending similarity.
fn sort_candidates(c: &Vec<Candidate>) -> (s: Vec<Candidate>)
    requires
        forall|k: int| 0 <= k < c@.len() ==> 2 * (#[trigger] c@[k]).2 <= c@[k].3,
    ensures
        s@ == sort_by_similarity(c@),
{
    let mut s: Vec<Candidate> = Vec::new();
    let n = c.len();
    let mut i: usize = 0;
    while i < n
        invariant
            n == c@.len(),
            i <= n,
            forall|k: int| 0 <= k < c@.len() ==> 2 * (#[trigger] c@[k]).2 <= c@[k].3,
            forall|k: int| 0 <= k < s@.len() ==> 2 * (#[trigger] s@[k]).2 <= s@[k].3,
            s@ == sort_by_similarity(c@.take(i as int)),
        decreases n - i,
    {
        let x = c[i];
        let p = find_insert_pos(&s, x);
        let ghost before = s@;
        s.insert(p, x);
        assert(c@.take(i + 1).drop_last() =~= c@.take(i as int));
        assert(c@.take(i + 1).last() == x);
        assert forall|k: int| 0 <= k < s@.len() implies 2 * (#[trigger] s@[k]).2 <= s@[k].3 by {
            if k < p {
                assert(s@[k] == before[k]);
            } else if k > p {
                assert(s@[k] == before[k - 1]);
            }
        }
        i = i + 1;
    }
    assert(c@.take(n as int) =~= c@);
    s
}

/// The candidate pairs of a replaced run, in document order.
fn collect_candidates(old_range: &[Block], new_range: &[Block]) -> (c: Vec<Candidate>)
    ensures
        c@ == candidates(blocks_model(old_range@), blocks_model(new_range@), old_range@.len() as int),
        forall|k: int| 0 <= k < c@.len() ==> 2 * (#[trigger] c@[k]).2 <= c@[k].3,
{
    let n_old = old_range.len();
    let n_new = new_range.len();
    let mut c: Vec<Candidate> = Vec::new();
    let mut oi: usize = 0;
    while oi < n_old
        invariant
            n_old == old_range@.len(),
            n_new == new_range@.len(),
            oi <= n_old,
            c@ == candidates(blocks_model(old_range@), blocks_model(new_range@), oi as int),
            forall|k: int| 0 <= k < c@.len() ==> 2 * (#[trigger] c@[k]).2 <= c@[k].3,
        decreases n_old - oi,
    {
        let old_b = &old_range[oi];
        if old_b.is_atomic() {
            proof {
                lemma_row_unusable_old(blocks_model(old_range@), blocks_model(new_range@), oi as int, n_new as int);
                assert(c@ =~= candidates(blocks_model(old_range@), blocks_model(new_range@), oi + 1));
            }
            oi = oi + 1;
            continue;
        }
        let old_text = match old_b.diff_text() {
            Some(t) => t,
            None => {
                proof {
                    lemma_row_unusable_old(blocks_model(old_range@), blocks_model(new_range@), oi as int, n_new as int);
                    assert(c@ =~= candidates(blocks_model(old_range@), blocks_model(new_range@), oi + 1));
                }
                oi = oi + 1;
                continue;
            },
        };
        let old_kind = old_b.kind();
        let ghost base = c@;
        let mut ni: usize = 0;
        while ni < n_new
            invariant
                n_old == old_range@.len(),
                n_new == new_range@.len(),
                oi < n_old,
                ni <= n_new,
                old_b == old_range@[oi as int],
                !spec_is_atomic(block_model(*old_b)),
                spec_diff_text(block_model(*old_b)) == Some(old_text@),
                old_kind == spec_kind(block_model(*old_b)),
                base == candidates(blocks_model(old_range@), blocks_model(new_range@), oi as int),
                c@ == base + row_candidates(blocks_model(old_range@), blocks_model(new_range@), oi as int, ni as int),
                forall|k: int| 0 <= k < c@.len() ==> 2 * (#[trigger] c@[k]).2 <= c@[k].3,
            decreases n_new - ni,
        {
            let new_b = &new_range[ni];
            let ghost row = row_candidates(blocks_model(old_range@), blocks_model(new_range@), oi as int, ni as int);
            assert(row_candidates(blocks_model(old_range@), blocks_model(new_range@), oi as int, ni + 1) == row + opt_seq(
                pair_candidate(blocks_model(old_range@), blocks_model(new_range@), oi as int, ni as int),
            ));
            if new_b.is_atomic() || old_kind != new_b.kind() {
                assert(c@ =~= base + row_candidates(blocks_model(old_range@), blocks_model(new_range@), oi as int, ni + 1));
                ni = ni + 1;
                continue;
            }
            let new_text = match new_b.diff_text() {
                Some(t) => t,
                None => {
                    assert(c@ =~= base + row_candidates(blocks_model(old_range@), blocks_model(new_range@), oi as int, ni + 1));
                    ni = ni + 1;
                    continue;
                },
            };
            match text_similarity(old_text.as_str(), new_text.as_str()) {
                Some((m, t)) => {
                    if t == 0 || (m as u128) * 4 >= (t as u128) {
                        c.push((oi, ni, m, t));
                    }
                },
                None => {},
            }
            assert(c@ =~= base + row_candidates(blocks_model(old_range@), blocks_model(new_range@), oi as int, ni + 1));
            ni = ni + 1;
        }
        assert(c@ =~= candidates(blocks_model(old_range@), blocks_model(new_range@), oi + 1));
        oi = oi + 1;
    }
    c
}

/// Greedy matching of the sorted candidates.
fn greedy_match(sorted: &Vec<Candidate>, n_old: usize, n_new: usize) -> (r: (Vec<Option<usize>>, Vec<Option<usize>>))
    requires
        forall|k: int| 0 <= k < sorted@.len() ==> (#[trigger] sorted@[k]).0 < n_old && sorted@[k].1 < n_new,
    ensures
        (r.0@, r.1@) == greedy(sorted@, n_old as nat, n_new as nat),
{
    let mut matched_old: Vec<Option<usize>> = Vec::new();
    let mut i: usize = 0;
    while i < n_old
        invariant
            i <= n_old,
            matched_old@ == Seq::new(i as nat, |k: int| None::<usize>),
        decreases n_old - i,
    {
        matched_old.push(None);
        i = i + 1;
        assert(matched_old@ =~= Seq::new(i as nat, |k: int| None::<usize>));
    }
    let mut matched_new: Vec<Option<usize>> = Vec::new();
    let mut j: usize = 0;
    while j < n_new
        invariant
            j <= n_new,
            matched_new@ == Seq::new(j as nat, |k: int| None::<usize>),
        decreases n_new - j,
    {
        matched_new.push(None);
        j = j + 1;
        assert(matched_new@ =~= Seq::new(j as nat, |k: int| None::<usize>));
    }
    assert((matched_old@, matched_new@) == greedy(sorted@.take(0), n_old as nat, n_new as nat));
    let n = sorted.len();
    let mut k: usize = 0;
    while k < n
        invariant
            n == sorted@.len(),
            k <= n,
            forall|q: int| 0 <= q < sorted@.len() ==> (#[trigger] sorted@[q]).0 < n_old && sorted@[q].1 < n_new,
            (matched_old@, matched_new@) == greedy(sorted@.take(k as int), n_old as nat, n_new as nat),
            matched_old@.len() == n_old,
            matched_new@.len() == n_new,
        decreases n - k,
    {
        let (oi, ni, _m, _t) = sorted[k];
        assert(sorted@.take(k + 1).drop_last() =~= sorted@.take(k as int));
        assert(sorted@.take(k + 1).last() == sorted@[k as int]);
        if matched_old[oi].is_none() && matched_new[ni].is_none() {
            matched_old.set(oi, Some(ni));
            matched_new.set(ni, Some(oi));
        }
        k = k + 1;
    }
    assert(sorted@.take(n as int) =~= sorted@);
    (matched_old, matched_new)
}

/// Process a Replace operation using similarity-based greedy matching.
///
/// Instead of pairing blocks by position, we compute similarity scores for all
/// compatible pairs and greedily match the most similar ones first. This produces
/// better word-level diffs when blocks are inserted or removed within a Replace region.
#[verifier::spinoff_prover]
#[verifier::rlimit(40)]
pub fn process_replace(old_range: &[Block], new_range: &[Block], results: &mut Vec<DiffResult>)
    ensures
        results_model(final(results)@) == results_model(old(results)@) + replace_results(blocks_model(old_range@), blocks_model(new_range@)),
        // Dropping deletions, one result stands for each new block, in order.
        corresponds(replace_results(blocks_model(old_range@), blocks_model(new_range@)), blocks_model(new_range@)),
{
    let n_old = old_range.len();
    let n_new = new_range.len();
    // 1. Candidate pairs with their similarity.
    let candidates_found = collect_candidates(old_range, new_range);
    // 2. Greedy match, most similar first.
    let sorted = sort_candidates(&candidates_found);
    proof {
        lemma_candidates_props(blocks_model(old_range@), blocks_model(new_range@), n_old as int);
        lemma_sort_elements(candidates_found@);
        assert forall|k: int| 0 <= k < sorted@.len() implies (#[trigger] sorted@[k]).0 < n_old
            && sorted@[k].1 < n_new && pair_candidate(blocks_model(old_range@), blocks_model(new_range@), sorted@[k].0 as int, sorted@[k].1 as int)
            == Some(sorted@[k]) by {
            assert(candidates_found@.contains(sorted@[k]));
            let w = choose|w: int| 0 <= w < candidates_found@.len() && candidates_found@[w] == sorted@[k];
            assert(candidates_found@[w] == sorted@[k]);
        }
    }
    let (matched_old, matched_new) = greedy_match(&sorted, n_old, n_new);
    proof {
        lemma_greedy_props(sorted@, n_old as nat, n_new as nat);
    }
    let ghost start = results_model(results@);
    // 3. Unmatched old blocks, as deletions, in document order.
    let mut oi: usize = 0;
    while oi < n_old
        invariant
            n_old == old_range@.len(),
            oi <= n_old,
            matched_old@.len() == n_old,
            results_model(results@) == start + unpaired_deleted(blocks_model(old_range@), matched_old@, oi as int),
        decreases n_old - oi,
    {
        let ghost before = results@;
        if matched_old[oi].is_none() {
            let r = DiffResult::Deleted(old_range[oi].duplicate());
            results.push(r);
            assert(results@ =~= before.push(r));
            assert(results_model(results@) =~= results_model(before).push(result_model(r)));
        }
        assert(results_model(results@) =~= start + unpaired_deleted(blocks_model(old_range@), matched_old@, oi + 1)) by {
            assert(results_model(before) == start + unpaired_deleted(blocks_model(old_range@), matched_old@, oi as int));
        }
        oi = oi + 1;
    }
    let ghost mid = results_model(results@);
    // 4. New blocks in order: Modified if matched, Added otherwise.
    let mut ni: usize = 0;
    while ni < n_new
        invariant
            n_old == old_range@.len(),
            n_new == new_range@.len(),
            ni <= n_new,
            matched_new@.len() == n_new,
            forall|j: int|
                0 <= j < n_new && (#[trigger] matched_new@[j]) is Some ==> exists|k: int|
                    0 <= k < sorted@.len() && sorted@[k].0 == matched_new@[j]->0 && sorted@[k].1 == j,
            forall|k: int| 0 <= k < sorted@.len() ==> (#[trigger] sorted@[k]).0 < n_old
                && sorted@[k].1 < n_new && pair_candidate(blocks_model(old_range@), blocks_model(new_range@), sorted@[k].0 as int, sorted@[k].1 as int)
                == Some(sorted@[k]),
            results_model(results@) == mid + new_side(blocks_model(old_range@), blocks_model(new_range@), matched_new@, ni as int),
            new_side_ok(blocks_model(old_range@), blocks_model(new_range@), matched_new@, ni as int),
        decreases n_new - ni,
    {
        let new_b = &new_range[ni];
        let ghost before = results@;
        match matched_new[ni] {
            Some(oi) => {
                proof {
                    let k = choose|k: int|
                        0 <= k < sorted@.len() && sorted@[k].0 == matched_new@[ni as int]->0 && sorted@[k].1 == ni;
                    assert(pair_candidate(blocks_model(old_range@), blocks_model(new_range@), oi as int, ni as int) is Some);
                }
                let old_b = &old_range[oi];
                let old_text = old_b.diff_text().unwrap();
                let new_text = new_b.diff_text().unwrap();
                let spans = word_diff(old_text.as_str(), new_text.as_str());
                let r = DiffResult::Modified { kind: old_b.kind(), spans };
                proof {
                    let bo = blocks_model(old_range@);
                    let bn = blocks_model(new_range@);
                    assert(new_side(bo, bn, matched_new@, ni + 1).last() == result_model(r));
                    assert(stands_for(result_model(r), bn[ni as int]));
                }
                results.push(r);
                assert(results@ =~= before.push(r));
                assert(results_model(results@) =~= results_model(before).push(result_model(r)));
            },
            None => {
                let r = DiffResult::Added(new_b.duplicate());
                proof {
                    let bo = blocks_model(old_range@);
                    let bn = blocks_model(new_range@);
                    assert(new_side(bo, bn, matched_new@, ni + 1).last() == result_model(r));
                }
                results.push(r);
                assert(results@ =~= before.push(r));
                assert(results_model(results@) =~= results_model(before).push(result_model(r)));
            },
        }
        assert(results_model(results@) =~= mid + new_side(blocks_model(old_range@), blocks_model(new_range@), matched_new@, ni + 1)) by {
            assert(results_model(before) == mid + new_side(blocks_model(old_range@), blocks_model(new_range@), matched_new@, ni as int));
        }
        ni = ni + 1;
    }
    proof {
        lemma_replace_corresponds(blocks_model(old_range@), blocks_model(new_range@));
    }
}

/// The results of a block-level edit script.
///
/// Unchanged, deleted and added runs give one result per block; a replaced
/// run goes through `process_replace`.
pub fn results_from_ops(old_blocks: &[Block], new_blocks: &[Block], ops: &Vec<EditOp>) -> (results: Vec<DiffResult>)
    requires
        ops_tile(ops@, old_blocks@.len() as int, new_blocks@.len() as int),
    ensures
        results_model(results@) == results_of_ops(blocks_model(old_blocks@), blocks_model(new_blocks@), ops@),
        // When the script's `Equal` operations pair blocks of equal
        // signatures, one result stands for each new block, in order.
        equal_ops_agree(ops@, signatures(blocks_model(old_blocks@)), signatures(blocks_model(new_blocks@)))
            ==> corresponds(results_model(results@), blocks_model(new_blocks@)),
{
    let ghost bo = blocks_model(old_blocks@);
    let ghost bn = blocks_model(new_blocks@);
    let ghost agree = equal_ops_agree(ops@, signatures(bo), signatures(bn));
    proof {
        assert(ops@.take(0) =~= Seq::<EditOp>::empty());
        assert(bn.take(0) =~= Seq::<BlockModel>::empty());
        assert(without_deletions(Seq::<ResultModel>::empty()) =~= Seq::<ResultModel>::empty());
    }
    let mut results: Vec<DiffResult> = Vec::new();
    let n = ops.len();
    let n_old = old_blocks.len();
    let n_new = new_blocks.len();
    let mut k: usize = 0;
    while k < n
        invariant
            n == ops@.len(),
            n_old == old_blocks@.len(),
            n_new == new_blocks@.len(),
            k <= n,
            ops_tile(ops@, old_blocks@.len() as int, new_blocks@.len() as int),
            results_model(results@) == results_of_ops(blocks_model(old_blocks@), blocks_model(new_blocks@), ops@.take(k as int)),
            bo == blocks_model(old_blocks@),
            bn == blocks_model(new_blocks@),
            agree == equal_ops_agree(ops@, signatures(bo), signatures(bn)),
            agree ==> corresponds(results_of_ops(bo, bn, ops@.take(k as int)), bn.take(new_covered(ops@, k as int))),
        decreases n - k,
    {
        proof {
            lemma_tile_bounds(ops@, old_blocks@.len() as int, new_blocks@.len() as int, k as int);
            lemma_results_of_ops_push(blocks_model(old_blocks@), blocks_model(new_blocks@), ops@, k as int);
        }
        let ghost before = results_model(results@);
        match ops[k] {
            EditOp::Equal { old_index, len, .. } => {
                push_blocks(&mut results, old_blocks, old_index, len, Tag::Unchanged);
                assert(results_model(results@) =~= before + results_of_op(blocks_model(old_blocks@), blocks_model(new_blocks@), ops@[k as int]));
            },
            EditOp::Delete { old_index, old_len, .. } => {
                push_blocks(&mut results, old_blocks, old_index, old_len, Tag::Deleted);
                assert(results_model(results@) =~= before + results_of_op(blocks_model(old_blocks@), blocks_model(new_blocks@), ops@[k as int]));
            },
            EditOp::Insert { new_index, new_len, .. } => {
                push_blocks(&mut results, new_blocks, new_index, new_len, Tag::Added);
                assert(results_model(results@) =~= before + results_of_op(blocks_model(old_blocks@), blocks_model(new_blocks@), ops@[k as int]));
            },
            EditOp::Replace { old_index, old_len, new_index, new_len } => {
                assert(blocks_model(old_blocks@.subrange(old_index as int, old_index + old_len))
                    =~= blocks_model(old_blocks@).subrange(old_index as int, old_index + old_len));
                assert(blocks_model(new_blocks@.subrange(new_index as int, new_index + new_len))
                    =~= blocks_model(new_blocks@).subrange(new_index as int, new_index + new_len));
                process_replace(
                    &old_blocks[old_index..old_index + old_len],
                    &new_blocks[new_index..new_index + new_len],
                    &mut results,
                );
            },
        }
        proof {
            if agree {
                lemma_results_step_corresponds(bo, bn, ops@, k as int);
            }
        }
        k = k + 1;
    }
    assert(ops@.take(n as int) =~= ops@);
    assert(bn.take(bn.len() as int) =~= bn);
    results
}

/// How a run of blocks enters the results.
#[derive(Clone, Copy, PartialEq, Eq, Structural)]
enum Tag {
    Unchanged,
    Deleted,
    Added,
}

spec fn tagged(tag: Tag, b: BlockModel) -> ResultModel {
    match tag {
        Tag::Unchanged => ResultModel::Unchanged(b),
        Tag::Deleted => ResultModel::Deleted(b),
        Tag::Added => ResultModel::Added(b),
    }
}

/// Appends one result per block of `blocks[start..start + len]`.
fn push_blocks(results: &mut Vec<DiffResult>, blocks: &[Block], start: usize, len: usize, tag: Tag)
    requires
        start + len <= blocks@.len(),
    ensures
        results_model(final(results)@) == results_model(old(results)@) + Seq::new(
            len as nat,
            |k: int| tagged(tag, block_model(blocks@[start + k])),
        ),
{
    let ghost before = results_model(results@);
    let n = blocks.len();
    let mut j: usize = 0;
    while j < len
        invariant
            n == blocks@.len(),
            start + len <= n,
            j <= len,
            results_model(results@) == before + Seq::new(j as nat, |k: int| tagged(tag, block_model(blocks@[start + k]))),
        decreases len - j,
    {
        let b = blocks[start + j].duplicate();
        let r = match tag {
            Tag::Unchanged => DiffResult::Unchanged(b),
            Tag::Deleted => DiffResult::Deleted(b),
            Tag::Added => DiffResult::Added(b),
        };
        let ghost prev = results@;
        results.push(r);
        assert(results@ =~= prev.push(r));
        assert(results_model(results@) =~= results_model(prev).push(result_model(r)));
        j = j + 1;
        assert(results_model(results@) =~= before + Seq::new(j as nat, |k: int| tagged(tag, block_model(blocks@[start + k]))));
    }
}

/// Diff two sequences of blocks, returning a list of diff results.
///
/// Uses Patience diff at the block level and word-level diff for modified blocks.
pub fn diff(old_blocks: &[Block], new_blocks: &[Block]) -> (results: Vec<DiffResult>)
    ensures
        results_model(results@) == spec_diff(blocks_model(old_blocks@), blocks_model(new_blocks@)),
        // Every old block is unchanged, deleted or the old side of one
        // modification; every new block is unchanged, added or the new side
        // of one modification.
        old_count(results_model(results@)) == old_blocks@.len(),
        new_count(results_model(results@)) == new_blocks@.len(),
        // Atomic blocks are never diffed word by word.
        no_atomic_modified(results_model(results@)),
        // A document diffed against itself is unchanged, block by block.
        blocks_model(old_blocks@) == blocks_model(new_blocks@) ==> results_model(results@) == all_unchanged(
            blocks_model(old_blocks@),
        ),
        // Against an empty document, every block is added or deleted.
        old_blocks@.len() == 0 ==> results_model(results@) == all_added(blocks_model(new_blocks@)),
        new_blocks@.len() == 0 ==> results_model(results@) == all_deleted(blocks_model(old_blocks@)),
        // Dropping deletions, one result stands for each new block, in order.
        corresponds(results_model(results@), blocks_model(new_blocks@)),
        // Unchanged results hold old blocks.
        unchanged_from(results_model(results@), blocks_model(old_blocks@)),
        // When no term holds a `:`, an unchanged result holds exactly the new
        // block it stands for.
        (forall|i: int| 0 <= i < old_blocks@.len() ==> colon_free_term(#[trigger] blocks_model(old_blocks@)[i]))
            && (forall|i: int| 0 <= i < new_blocks@.len() ==> colon_free_term(#[trigger] blocks_model(new_blocks@)[i]))
            ==> forall|i: int|
            0 <= i < new_blocks@.len() ==> (#[trigger] without_deletions(results_model(results@))[i] matches ResultModel::Unchanged(
                x,
            ) ==> x == blocks_model(new_blocks@)[i]),
{
    let old_sigs = block_signatures(old_blocks);
    let new_sigs = block_signatures(new_blocks);
    let old_refs = crate::ops::as_strs(&old_sigs);
    let new_refs = crate::ops::as_strs(&new_sigs);
    let ops = diff_slices(DiffAlgorithm::Patience, &old_refs, &new_refs);
    let results = results_from_ops(old_blocks, new_blocks, &ops);
    // Both lengths fit in a usize.
    let (n_old, n_new) = (old_blocks.len(), new_blocks.len());
    proof {
        assert(n_old == old_blocks@.len() && n_new == new_blocks@.len());
        lemma_results_of_ops_account(blocks_model(old_blocks@), blocks_model(new_blocks@), ops@);
        if blocks_model(old_blocks@) == blocks_model(new_blocks@) {
            lemma_equal_ops_unchanged(blocks_model(old_blocks@), ops@);
        }
        if old_blocks@.len() == 0 {
            lemma_from_nothing(blocks_model(old_blocks@), blocks_model(new_blocks@), ops@);
        }
        if new_blocks@.len() == 0 {
            lemma_to_nothing(blocks_model(old_blocks@), blocks_model(new_blocks@), ops@);
        }
        let bo = blocks_model(old_blocks@);
        let bn = blocks_model(new_blocks@);
        let rs = results_model(results@);
        lemma_unchanged_from_ops(bo, bn, ops@);
        if (forall|i: int| 0 <= i < old_blocks@.len() ==> colon_free_term(#[trigger] bo[i])) && (forall|i: int|
            0 <= i < new_blocks@.len() ==> colon_free_term(#[trigger] bn[i])) {
            assert forall|j: int| 0 <= j < rs.len() implies (#[trigger] rs[j] matches ResultModel::Unchanged(x)
                ==> colon_free_term(x)) by {
                if let ResultModel::Unchanged(x) = rs[j] {
                    let w = choose|w: int| 0 <= w < bo.len() && bo[w] == x;
                    assert(colon_free_term(bo[w]));
                }
            }
            lemma_unchanged_is_new_block(rs, bn);
        }
    }
    results
}

/// The signatures of the blocks.
fn block_signatures(blocks: &[Block]) -> (sigs: Vec<String>)
    ensures
        strings_view(sigs@) == signatures(blocks_model(blocks@)),
        sigs@.len() == blocks@.len(),
{
    let mut sigs: Vec<String> = Vec::new();
    let n = blocks.len();
    let mut i: usize = 0;
    while i < n
        invariant
            n == blocks@.len(),
            i <= n,
            sigs@.len() == i,
            strings_view(sigs@) == signatures(blocks_model(blocks@.take(i as int))),
        decreases n - i,
    {
        let s = blocks[i].signature();
        let ghost prev = sigs@;
        sigs.push(s);
        assert(strings_view(sigs@) =~= strings_view(prev).push(s@));
        assert(blocks_model(blocks@.take(i + 1)) =~= blocks_model(blocks@.take(i as int)).push(block_model(blocks@[i as int])));
        assert(signatures(blocks_model(blocks@.take(i + 1))) =~= signatures(blocks_model(blocks@.take(i as int))).push(spec_signature(block_model(blocks@[i as int]))));
        i = i + 1;
    }
    assert(blocks@.take(n as int) =~= blocks@);
    sigs
}


// ---------------------------------------------------------------------------
// Laws.

/// Number of results that stand for an old block (all but additions).
pub open spec fn old_count(rs: Seq<ResultModel>) -> int
    decreases rs.len(),
{
    if rs.len() == 0 {
        0
    } else {
        old_count(rs.drop_last()) + if rs.last() is Added {
            0int
        } else {
            1int
        }
    }
}

/// Number of results that stand for a new block (all but deletions).
pub open spec fn new_count(rs: Seq<ResultModel>) -> int
    decreases rs.len(),
{
    if rs.len() == 0 {
        0
    } else {
        new_count(rs.drop_last()) + if rs.last() is Deleted {
            0int
        } else {
            1int
        }
    }
}

/// No result is a word-level diff of atomic blocks.
pub open spec fn no_atomic_modified(rs: Seq<ResultModel>) -> bool {
    forall|i: int|
        0 <= i < rs.len() && (#[trigger] rs[i]) is Modified ==> rs[i]->Modified_0 != BlockKind::Atomic
            && rs[i]->Modified_0 != BlockKind::Parbreak
}

pub proof fn lemma_counts_append(a: Seq<ResultModel>, b: Seq<ResultModel>)
    ensures
        old_count(a + b) == old_count(a) + old_count(b),
        new_count(a + b) == new_count(a) + new_count(b),
    decreases b.len(),
{
    if b.len() == 0 {
        assert(a + b =~= a);
    } else {
        lemma_counts_append(a, b.drop_last());
        assert((a + b).drop_last() =~= a + b.drop_last());
    }
}

pub proof fn lemma_counts_uniform(rs: Seq<ResultModel>)
    requires
        forall|i: int| 0 <= i < rs.len() ==> (#[trigger] rs[i]) is Unchanged,
    ensures
        old_count(rs) == rs.len(),
        new_count(rs) == rs.len(),
    decreases rs.len(),
{
    if rs.len() > 0 {
        lemma_counts_uniform(rs.drop_last());
    }
}

pub proof fn lemma_counts_deleted(rs: Seq<ResultModel>)
    requires
        forall|i: int| 0 <= i < rs.len() ==> (#[trigger] rs[i]) is Deleted,
    ensures
        old_count(rs) == rs.len(),
        new_count(rs) == 0,
    decreases rs.len(),
{
    if rs.len() > 0 {
        lemma_counts_deleted(rs.drop_last());
    }
}

pub proof fn lemma_counts_added(rs: Seq<ResultModel>)
    requires
        forall|i: int| 0 <= i < rs.len() ==> (#[trigger] rs[i]) is Added,
    ensures
        old_count(rs) == 0,
        new_count(rs) == rs.len(),
    decreases rs.len(),
{
    if rs.len() > 0 {
        lemma_counts_added(rs.drop_last());
    }
}

/// Number of paired entries among the first `k`.
pub open spec fn count_some(s: Seq<Option<usize>>, k: int) -> int
    decreases k,
{
    if k <= 0 {
        0
    } else {
        count_some(s, k - 1) + if s[k - 1] is Some {
            1int
        } else {
            0int
        }
    }
}

pub proof fn lemma_count_some_bounds(s: Seq<Option<usize>>, k: int)
    requires
        0 <= k,
    ensures
        0 <= count_some(s, k) <= k,
    decreases k,
{
    if k > 0 {
        lemma_count_some_bounds(s, k - 1);
    }
}

pub proof fn lemma_count_some_update(s: Seq<Option<usize>>, i: int, x: usize, k: int)
    requires
        0 <= i < s.len(),
        s[i] is None,
        0 <= k <= s.len(),
    ensures
        count_some(s.update(i, Some(x)), k) == count_some(s, k) + if i < k {
            1int
        } else {
            0int
        },
    decreases k,
{
    if k > 0 {
        lemma_count_some_update(s, i, x, k - 1);
    }
}

pub proof fn lemma_count_some_none(n: nat, k: int)
    requires
        0 <= k <= n,
    ensures
        count_some(Seq::new(n, |i: int| None::<usize>), k) == 0,
    decreases k,
{
    if k > 0 {
        lemma_count_some_none(n, k - 1);
    }
}

/// The greedy matching pairs as many old blocks as new blocks.
pub proof fn lemma_greedy_counts(sorted: Seq<Candidate>, n_old: nat, n_new: nat)
    requires
        forall|k: int| 0 <= k < sorted.len() ==> (#[trigger] sorted[k]).0 < n_old && sorted[k].1 < n_new,
    ensures
        greedy(sorted, n_old, n_new).0.len() == n_old,
        greedy(sorted, n_old, n_new).1.len() == n_new,
        count_some(greedy(sorted, n_old, n_new).0, n_old as int) == count_some(
            greedy(sorted, n_old, n_new).1,
            n_new as int,
        ),
    decreases sorted.len(),
{
    if sorted.len() == 0 {
        lemma_count_some_none(n_old, n_old as int);
        lemma_count_some_none(n_new, n_new as int);
    } else {
        let rest = sorted.drop_last();
        assert forall|k: int| 0 <= k < rest.len() implies (#[trigger] rest[k]).0 < n_old && rest[k].1 < n_new by {
            assert(rest[k] == sorted[k]);
        }
        lemma_greedy_counts(rest, n_old, n_new);
        let (mo, mn) = greedy(rest, n_old, n_new);
        let c = sorted.last();
        assert(c == sorted[sorted.len() - 1]);
        if mo[c.0 as int] is None && mn[c.1 as int] is None {
            lemma_count_some_update(mo, c.0 as int, c.1, n_old as int);
            lemma_count_some_update(mn, c.1 as int, c.0, n_new as int);
        }
    }
}

pub proof fn lemma_unpaired_deleted_counts(old: Seq<BlockModel>, mo: Seq<Option<usize>>, k: int)
    requires
        0 <= k,
    ensures
        old_count(unpaired_deleted(old, mo, k)) == k - count_some(mo, k),
        new_count(unpaired_deleted(old, mo, k)) == 0,
    decreases k,
{
    if k > 0 {
        lemma_unpaired_deleted_counts(old, mo, k - 1);
        let tail = if mo[k - 1] is None {
            seq![ResultModel::Deleted(old[k - 1])]
        } else {
            Seq::<ResultModel>::empty()
        };
        lemma_counts_append(unpaired_deleted(old, mo, k - 1), tail);
        lemma_counts_deleted(tail);
    }
}

pub proof fn lemma_new_side_counts(old: Seq<BlockModel>, new: Seq<BlockModel>, mn: Seq<Option<usize>>, k: int)
    requires
        0 <= k,
    ensures
        old_count(new_side(old, new, mn, k)) == count_some(mn, k),
        new_count(new_side(old, new, mn, k)) == k,
    decreases k,
{
    if k > 0 {
        lemma_new_side_counts(old, new, mn, k - 1);
        let r = new_side(old, new, mn, k);
        assert(r.drop_last() =~= new_side(old, new, mn, k - 1));
    }
}

/// The candidates, sorted, pair blocks within range and are candidates.
pub proof fn lemma_sorted_props(old: Seq<BlockModel>, new: Seq<BlockModel>)
    requires
        old.len() <= usize::MAX,
        new.len() <= usize::MAX,
    ensures
        forall|k: int|
            0 <= k < sort_by_similarity(candidates(old, new, old.len() as int)).len() ==> {
                let c = #[trigger] sort_by_similarity(candidates(old, new, old.len() as int))[k];
                &&& c.0 < old.len()
                &&& c.1 < new.len()
                &&& pair_candidate(old, new, c.0 as int, c.1 as int) == Some(c)
            },
{
    let cs = candidates(old, new, old.len() as int);
    let sorted = sort_by_similarity(cs);
    lemma_candidates_props(old, new, old.len() as int);
    lemma_sort_elements(cs);
    assert forall|k: int| 0 <= k < sorted.len() implies {
        let c = #[trigger] sorted[k];
        &&& c.0 < old.len()
        &&& c.1 < new.len()
        &&& pair_candidate(old, new, c.0 as int, c.1 as int) == Some(c)
    } by {
        assert(cs.contains(sorted[k]));
        let w = choose|w: int| 0 <= w < cs.len() && cs[w] == sorted[k];
    }
}

/// Law: a replaced run accounts for every block once. Each old block is
/// either deleted or the old side of one modification; each new block is
/// either added or the new side of one modification.
pub proof fn lemma_replace_counts(old: Seq<BlockModel>, new: Seq<BlockModel>)
    requires
        old.len() <= usize::MAX,
        new.len() <= usize::MAX,
    ensures
        old_count(replace_results(old, new)) == old.len(),
        new_count(replace_results(old, new)) == new.len(),
{
    let sorted = sort_by_similarity(candidates(old, new, old.len() as int));
    lemma_sorted_props(old, new);
    lemma_greedy_counts(sorted, old.len(), new.len());
    let (mo, mn) = greedy(sorted, old.len(), new.len());
    lemma_unpaired_deleted_counts(old, mo, old.len() as int);
    lemma_new_side_counts(old, new, mn, new.len() as int);
    lemma_counts_append(unpaired_deleted(old, mo, old.len() as int), new_side(old, new, mn, new.len() as int));
}

/// Law: atomic blocks (raw blocks, equations, code, paragraph breaks) are
/// never diffed word by word: every modification is of a paragraph,
/// heading, list item, enum item or term item.
pub proof fn lemma_replace_no_atomic(old: Seq<BlockModel>, new: Seq<BlockModel>)
    requires
        old.len() <= usize::MAX,
        new.len() <= usize::MAX,
    ensures
        no_atomic_modified(replace_results(old, new)),
{
    let sorted = sort_by_similarity(candidates(old, new, old.len() as int));
    lemma_sorted_props(old, new);
    lemma_greedy_props(sorted, old.len(), new.len());
    let (mo, mn) = greedy(sorted, old.len(), new.len());
    let d = unpaired_deleted(old, mo, old.len() as int);
    lemma_unpaired_deleted_kinds(old, mo, old.len() as int);
    lemma_new_side_no_atomic(old, new, sorted, mn, new.len() as int);
    let r = replace_results(old, new);
    assert(r == d + new_side(old, new, mn, new.len() as int));
    assert forall|i: int| 0 <= i < r.len() && (#[trigger] r[i]) is Modified implies r[i]->Modified_0
        != BlockKind::Atomic && r[i]->Modified_0 != BlockKind::Parbreak by {
        if i < d.len() {
            assert(r[i] == d[i]);
        } else {
            assert(r[i] == new_side(old, new, mn, new.len() as int)[i - d.len()]);
        }
    }
}

pub proof fn lemma_unpaired_deleted_kinds(old: Seq<BlockModel>, mo: Seq<Option<usize>>, k: int)
    requires
        0 <= k,
    ensures
        forall|i: int| 0 <= i < unpaired_deleted(old, mo, k).len() ==> (#[trigger] unpaired_deleted(old, mo, k)[i]) is Deleted,
    decreases k,
{
    if k > 0 {
        lemma_unpaired_deleted_kinds(old, mo, k - 1);
        let a = unpaired_deleted(old, mo, k - 1);
        let r = unpaired_deleted(old, mo, k);
        assert forall|i: int| 0 <= i < r.len() implies (#[trigger] r[i]) is Deleted by {
            if i < a.len() {
                assert(r[i] == a[i]);
            }
        }
    }
}

pub proof fn lemma_new_side_no_atomic(
    old: Seq<BlockModel>,
    new: Seq<BlockModel>,
    sorted: Seq<Candidate>,
    mn: Seq<Option<usize>>,
    k: int,
)
    requires
        0 <= k <= mn.len(),
        forall|j: int|
            0 <= j < mn.len() && (#[trigger] mn[j]) is Some ==> exists|q: int|
                0 <= q < sorted.len() && sorted[q].0 == mn[j]->0 && sorted[q].1 == j,
        forall|q: int| 0 <= q < sorted.len() ==> {
            let c = #[trigger] sorted[q];
            pair_candidate(old, new, c.0 as int, c.1 as int) == Some(c)
        },
    ensures
        no_atomic_modified(new_side(old, new, mn, k)),
    decreases k,
{
    if k > 0 {
        lemma_new_side_no_atomic(old, new, sorted, mn, k - 1);
        let a = new_side(old, new, mn, k - 1);
        let r = new_side(old, new, mn, k);
        assert forall|i: int| 0 <= i < r.len() && (#[trigger] r[i]) is Modified implies r[i]->Modified_0
            != BlockKind::Atomic && r[i]->Modified_0 != BlockKind::Parbreak by {
            if i < a.len() {
                assert(r[i] == a[i]);
            } else {
                let oi = mn[k - 1]->0;
                let q = choose|q: int| 0 <= q < sorted.len() && sorted[q].0 == oi && sorted[q].1 == k - 1;
                assert(pair_candidate(old, new, oi as int, k - 1) is Some);
            }
        }
    }
}

pub proof fn lemma_results_of_ops_laws(old: Seq<BlockModel>, new: Seq<BlockModel>, ops: Seq<EditOp>, k: int)
    requires
        ops_tile(ops, old.len() as int, new.len() as int),
        old.len() <= usize::MAX,
        new.len() <= usize::MAX,
        0 <= k <= ops.len(),
    ensures
        old_count(results_of_ops(old, new, ops.take(k))) == old_covered(ops, k),
        new_count(results_of_ops(old, new, ops.take(k))) == new_covered(ops, k),
        no_atomic_modified(results_of_ops(old, new, ops.take(k))),
    decreases k,
{
    if k == 0 {
        assert(ops.take(0) =~= Seq::<EditOp>::empty());
    } else {
        lemma_results_of_ops_laws(old, new, ops, k - 1);
        lemma_tile_bounds(ops, old.len() as int, new.len() as int, k - 1);
        lemma_results_of_ops_push(old, new, ops, k - 1);
        let a = results_of_ops(old, new, ops.take(k - 1));
        let op = ops[k - 1];
        let b = results_of_op(old, new, op);
        lemma_counts_append(a, b);
        match op {
            EditOp::Equal { .. } => {
                lemma_counts_uniform(b);
            },
            EditOp::Delete { .. } => {
                lemma_counts_deleted(b);
            },
            EditOp::Insert { .. } => {
                lemma_counts_added(b);
            },
            EditOp::Replace { old_index, old_len, new_index, new_len } => {
                let os = old.subrange(old_index as int, old_index + old_len);
                let ns = new.subrange(new_index as int, new_index + new_len);
                lemma_replace_counts(os, ns);
                lemma_replace_no_atomic(os, ns);
            },
        }
        let r = a + b;
        assert forall|i: int| 0 <= i < r.len() && (#[trigger] r[i]) is Modified implies r[i]->Modified_0
            != BlockKind::Atomic && r[i]->Modified_0 != BlockKind::Parbreak by {
            if i < a.len() {
                assert(r[i] == a[i]);
            } else {
                assert(r[i] == b[i - a.len()]);
            }
        }
    }
}

/// Law: the results of a block-level edit script that walks both block
/// sequences account for every block once: old blocks are unchanged,
/// deleted or the old side of a modification; new blocks are unchanged,
/// added or the new side of a modification; and no atomic block is
/// modified.
pub proof fn lemma_results_of_ops_account(old: Seq<BlockModel>, new: Seq<BlockModel>, ops: Seq<EditOp>)
    requires
        ops_tile(ops, old.len() as int, new.len() as int),
        old.len() <= usize::MAX,
        new.len() <= usize::MAX,
    ensures
        old_count(results_of_ops(old, new, ops)) == old.len(),
        new_count(results_of_ops(old, new, ops)) == new.len(),
        no_atomic_modified(results_of_ops(old, new, ops)),
{
    lemma_results_of_ops_laws(old, new, ops, ops.len() as int);
    assert(ops.take(ops.len() as int) =~= ops);
}

/// Every block unchanged, in order.
pub open spec fn all_unchanged(bs: Seq<BlockModel>) -> Seq<ResultModel> {
    bs.map_values(|b: BlockModel| ResultModel::Unchanged(b))
}

proof fn lemma_equal_ops_prefix(bs: Seq<BlockModel>, ops: Seq<EditOp>, k: int)
    requires
        ops_tile(ops, bs.len() as int, bs.len() as int),
        all_equal(ops),
        0 <= k <= ops.len(),
    ensures
        results_of_ops(bs, bs, ops.take(k)) == all_unchanged(bs.take(old_covered(ops, k))),
    decreases k,
{
    if k == 0 {
        assert(ops.take(0) =~= Seq::<EditOp>::empty());
        assert(all_unchanged(bs.take(0)) =~= Seq::<ResultModel>::empty());
    } else {
        lemma_equal_ops_prefix(bs, ops, k - 1);
        lemma_tile_bounds(ops, bs.len() as int, bs.len() as int, k - 1);
        lemma_results_of_ops_push(bs, bs, ops, k - 1);
        let op = ops[k - 1];
        assert(op is Equal);
        let a = old_covered(ops, k - 1);
        assert(old_covered(ops, k) == a + op_old_len(op));
        assert(all_unchanged(bs.take(a + op_old_len(op))) =~= all_unchanged(bs.take(a)) + results_of_op(bs, bs, op));
    }
}

/// Law: an edit script made only of `Equal` operations (which similar
/// gives for two equal sequences) leaves every block unchanged, in order.
pub proof fn lemma_equal_ops_unchanged(bs: Seq<BlockModel>, ops: Seq<EditOp>)
    requires
        ops_tile(ops, bs.len() as int, bs.len() as int),
        all_equal(ops),
    ensures
        results_of_ops(bs, bs, ops) == all_unchanged(bs),
{
    lemma_equal_ops_prefix(bs, ops, ops.len() as int);
    assert(ops.take(ops.len() as int) =~= ops);
    assert(bs.take(bs.len() as int) =~= bs);
}

/// The candidates are in descending order of similarity.
pub open spec fn sorted_by_similarity(s: Seq<Candidate>) -> bool {
    forall|i: int, j: int| 0 <= i < j < s.len() ==> !more_similar(#[trigger] s[j], #[trigger] s[i])
}

proof fn lemma_cross_order(an: int, ad: int, bn: int, bd: int, xn: int, xd: int)
    by (nonlinear_arith)
    requires
        ad > 0,
        bd > 0,
        xd > 0,
        an * bd <= bn * ad,
        xn * bd > bn * xd,
    ensures
        an * xd <= xn * ad,
{
    assert(an * bd * xd <= bn * ad * xd);
    assert(bn * xd * ad < xn * bd * ad);
}

/// If `x` is more similar than `b` and `a` is not, `a` is not more similar
/// than `x`.
pub proof fn lemma_more_similar_order(a: Candidate, b: Candidate, x: Candidate)
    requires
        !more_similar(a, b),
        more_similar(x, b),
    ensures
        !more_similar(a, x),
{
    lemma_cross_order(ratio_num(a), ratio_den(a), ratio_num(b), ratio_den(b), ratio_num(x), ratio_den(x));
}

/// Law: sorting the candidates puts them in descending order of
/// similarity, and keeps exactly the candidates it was given.
pub proof fn lemma_sort_by_similarity(c: Seq<Candidate>)
    ensures
        sorted_by_similarity(sort_by_similarity(c)),
        sort_by_similarity(c).to_multiset() == c.to_multiset(),
    decreases c.len(),
{
    broadcast use vstd::seq_lib::to_multiset_build, vstd::seq_lib::to_multiset_insert;

    if c.len() == 0 {
        assert(c =~= Seq::<Candidate>::empty());
    } else {
        let rest = c.drop_last();
        let x = c.last();
        lemma_sort_by_similarity(rest);
        let s = sort_by_similarity(rest);
        lemma_insert_pos_bounds(s, x, 0);
        let p = insert_pos(s, x, 0);
        let r = s.insert(p, x);
        assert(c =~= rest.push(x));
        assert forall|i: int, j: int| 0 <= i < j < r.len() implies !more_similar(#[trigger] r[j], #[trigger] r[i]) by {
            if j < p {
                assert(r[i] == s[i] && r[j] == s[j]);
            } else if j == p {
                assert(r[i] == s[i]);
            } else if i < p {
                assert(r[i] == s[i] && r[j] == s[j - 1]);
            } else if i == p {
                assert(r[j] == s[j - 1]);
                if j - 1 > p {
                    assert(!more_similar(s[j - 1], s[p]));
                }
                lemma_more_similar_order(s[j - 1], s[p], x);
            } else {
                assert(r[i] == s[i - 1] && r[j] == s[j - 1]);
            }
        }
    }
}

/// `mo` and `mn` record the same pairs, seen from either side.
pub open spec fn mutual(mo: Seq<Option<usize>>, mn: Seq<Option<usize>>) -> bool {
    &&& forall|oi: int|
        0 <= oi < mo.len() && (#[trigger] mo[oi]) is Some ==> mo[oi]->0 < mn.len() && mn[mo[oi]->0 as int] == Some(
            oi as usize,
        )
    &&& forall|ni: int|
        0 <= ni < mn.len() && (#[trigger] mn[ni]) is Some ==> mn[ni]->0 < mo.len() && mo[mn[ni]->0 as int] == Some(
            ni as usize,
        )
}

proof fn lemma_greedy_mutual(sorted: Seq<Candidate>, n_old: nat, n_new: nat)
    requires
        forall|k: int| 0 <= k < sorted.len() ==> (#[trigger] sorted[k]).0 < n_old && sorted[k].1 < n_new,
    ensures
        greedy(sorted, n_old, n_new).0.len() == n_old,
        greedy(sorted, n_old, n_new).1.len() == n_new,
        mutual(greedy(sorted, n_old, n_new).0, greedy(sorted, n_old, n_new).1),
    decreases sorted.len(),
{
    if sorted.len() > 0 {
        let rest = sorted.drop_last();
        assert forall|k: int| 0 <= k < rest.len() implies (#[trigger] rest[k]).0 < n_old && rest[k].1 < n_new by {
            assert(rest[k] == sorted[k]);
        }
        lemma_greedy_mutual(rest, n_old, n_new);
        let (mo, mn) = greedy(rest, n_old, n_new);
        let c = sorted.last();
        assert(c == sorted[sorted.len() - 1]);
        if mo[c.0 as int] is None && mn[c.1 as int] is None {
            let mo2 = mo.update(c.0 as int, Some(c.1));
            let mn2 = mn.update(c.1 as int, Some(c.0));
            assert forall|oi: int| 0 <= oi < mo2.len() && (#[trigger] mo2[oi]) is Some implies mo2[oi]->0 < mn2.len()
                && mn2[mo2[oi]->0 as int] == Some(oi as usize) by {
                if oi != c.0 {
                    assert(mo2[oi] == mo[oi]);
                }
            }
            assert forall|ni: int| 0 <= ni < mn2.len() && (#[trigger] mn2[ni]) is Some implies mn2[ni]->0 < mo2.len()
                && mo2[mn2[ni]->0 as int] == Some(ni as usize) by {
                if ni != c.1 {
                    assert(mn2[ni] == mn[ni]);
                }
            }
        }
    }
}

/// Law: the matching of a replaced run pairs old and new blocks one to
/// one, and pairs only candidates: blocks of the same kind, neither of them
/// atomic, whose texts are similar enough.
pub proof fn lemma_matching_pairs(old: Seq<BlockModel>, new: Seq<BlockModel>)
    requires
        old.len() <= usize::MAX,
        new.len() <= usize::MAX,
    ensures
        matching(old, new).0.len() == old.len(),
        matching(old, new).1.len() == new.len(),
        mutual(matching(old, new).0, matching(old, new).1),
        forall|ni: int|
            0 <= ni < new.len() && (#[trigger] matching(old, new).1[ni]) is Some ==> pair_candidate(
                old,
                new,
                matching(old, new).1[ni]->0 as int,
                ni,
            ) is Some,
{
    let sorted = sort_by_similarity(candidates(old, new, old.len() as int));
    lemma_sorted_props(old, new);
    lemma_greedy_mutual(sorted, old.len(), new.len());
    lemma_greedy_props(sorted, old.len(), new.len());
    let mn = matching(old, new).1;
    assert forall|ni: int| 0 <= ni < new.len() && (#[trigger] mn[ni]) is Some implies pair_candidate(
        old,
        new,
        mn[ni]->0 as int,
        ni,
    ) is Some by {
        let q = choose|q: int| 0 <= q < sorted.len() && sorted[q].0 == mn[ni]->0 && sorted[q].1 == ni;
        assert(pair_candidate(old, new, sorted[q].0 as int, sorted[q].1 as int) == Some(sorted[q]));
    }
}

/// Every block added, in order.
pub open spec fn all_added(bs: Seq<BlockModel>) -> Seq<ResultModel> {
    bs.map_values(|b: BlockModel| ResultModel::Added(b))
}

/// Every block deleted, in order.
pub open spec fn all_deleted(bs: Seq<BlockModel>) -> Seq<ResultModel> {
    bs.map_values(|b: BlockModel| ResultModel::Deleted(b))
}

proof fn lemma_new_side_unpaired(old: Seq<BlockModel>, new: Seq<BlockModel>, mn: Seq<Option<usize>>, k: int)
    requires
        0 <= k <= new.len(),
        k <= mn.len(),
        forall|j: int| 0 <= j < mn.len() ==> (#[trigger] mn[j]) is None,
    ensures
        new_side(old, new, mn, k) == all_added(new.take(k)),
    decreases k,
{
    if k == 0 {
        assert(all_added(new.take(0)) =~= Seq::<ResultModel>::empty());
    } else {
        lemma_new_side_unpaired(old, new, mn, k - 1);
        assert(mn[k - 1] is None);
        assert(all_added(new.take(k)) =~= all_added(new.take(k - 1)).push(ResultModel::Added(new[k - 1])));
    }
}

proof fn lemma_unpaired_all(old: Seq<BlockModel>, mo: Seq<Option<usize>>, k: int)
    requires
        0 <= k <= old.len(),
        k <= mo.len(),
        forall|j: int| 0 <= j < mo.len() ==> (#[trigger] mo[j]) is None,
    ensures
        unpaired_deleted(old, mo, k) == all_deleted(old.take(k)),
    decreases k,
{
    if k == 0 {
        assert(all_deleted(old.take(0)) =~= Seq::<ResultModel>::empty());
    } else {
        lemma_unpaired_all(old, mo, k - 1);
        assert(mo[k - 1] is None);
        assert(all_deleted(old.take(k)) =~= all_deleted(old.take(k - 1)).push(ResultModel::Deleted(old[k - 1])));
    }
}

proof fn lemma_no_candidates_without_new(old: Seq<BlockModel>, new: Seq<BlockModel>, i: int)
    requires
        new.len() == 0,
        0 <= i,
    ensures
        candidates(old, new, i) == Seq::<Candidate>::empty(),
    decreases i,
{
    if i > 0 {
        lemma_no_candidates_without_new(old, new, i - 1);
        assert(candidates(old, new, i) =~= Seq::<Candidate>::empty());
    }
}

/// A replaced run with no old blocks is all additions; one with no new
/// blocks is all deletions.
proof fn lemma_replace_one_side(old: Seq<BlockModel>, new: Seq<BlockModel>)
    ensures
        old.len() == 0 ==> replace_results(old, new) == all_added(new),
        new.len() == 0 ==> replace_results(old, new) == all_deleted(old),
{
    if old.len() == 0 {
        assert(candidates(old, new, 0) =~= Seq::<Candidate>::empty());
        let (mo, mn) = matching(old, new);
        assert(unpaired_deleted(old, mo, 0) =~= Seq::<ResultModel>::empty());
        lemma_new_side_unpaired(old, new, mn, new.len() as int);
        assert(new.take(new.len() as int) =~= new);
        assert(replace_results(old, new) =~= all_added(new));
    }
    if new.len() == 0 {
        lemma_no_candidates_without_new(old, new, old.len() as int);
        let (mo, mn) = matching(old, new);
        lemma_unpaired_all(old, mo, old.len() as int);
        assert(old.take(old.len() as int) =~= old);
        assert(new_side(old, new, mn, 0) =~= Seq::<ResultModel>::empty());
        assert(replace_results(old, new) =~= all_deleted(old));
    }
}

proof fn lemma_from_nothing_prefix(old: Seq<BlockModel>, new: Seq<BlockModel>, ops: Seq<EditOp>, k: int)
    requires
        old.len() == 0,
        ops_tile(ops, 0, new.len() as int),
        0 <= k <= ops.len(),
    ensures
        0 <= new_covered(ops, k) <= new.len(),
        results_of_ops(old, new, ops.take(k)) == all_added(new.take(new_covered(ops, k))),
    decreases k,
{
    if k == 0 {
        assert(ops.take(0) =~= Seq::<EditOp>::empty());
        assert(all_added(new.take(0)) =~= Seq::<ResultModel>::empty());
    } else {
        lemma_from_nothing_prefix(old, new, ops, k - 1);
        lemma_tile_bounds(ops, 0, new.len() as int, k - 1);
        lemma_results_of_ops_push(old, new, ops, k - 1);
        let op = ops[k - 1];
        let a = new_covered(ops, k - 1);
        assert(new_covered(ops, k) == a + op_new_len(op));
        let b = results_of_op(old, new, op);
        match op {
            EditOp::Replace { old_index, old_len, new_index, new_len } => {
                let os = old.subrange(old_index as int, old_index + old_len);
                let ns = new.subrange(new_index as int, new_index + new_len);
                assert(os.len() == 0);
                lemma_replace_one_side(os, ns);
                assert(all_added(ns) =~= all_added(new.take(a + op_new_len(op))).subrange(a, a + op_new_len(op)));
            },
            _ => {},
        }
        assert(all_added(new.take(a + op_new_len(op))) =~= all_added(new.take(a)) + b);
    }
}

/// Law: against an empty old document, every new block is added, in order.
pub proof fn lemma_from_nothing(old: Seq<BlockModel>, new: Seq<BlockModel>, ops: Seq<EditOp>)
    requires
        old.len() == 0,
        ops_tile(ops, 0, new.len() as int),
    ensures
        results_of_ops(old, new, ops) == all_added(new),
{
    lemma_from_nothing_prefix(old, new, ops, ops.len() as int);
    assert(ops.take(ops.len() as int) =~= ops);
    assert(new.take(new.len() as int) =~= new);
}

proof fn lemma_to_nothing_prefix(old: Seq<BlockModel>, new: Seq<BlockModel>, ops: Seq<EditOp>, k: int)
    requires
        new.len() == 0,
        ops_tile(ops, old.len() as int, 0),
        0 <= k <= ops.len(),
    ensures
        0 <= old_covered(ops, k) <= old.len(),
        results_of_ops(old, new, ops.take(k)) == all_deleted(old.take(old_covered(ops, k))),
    decreases k,
{
    if k == 0 {
        assert(ops.take(0) =~= Seq::<EditOp>::empty());
        assert(all_deleted(old.take(0)) =~= Seq::<ResultModel>::empty());
    } else {
        lemma_to_nothing_prefix(old, new, ops, k - 1);
        lemma_tile_bounds(ops, old.len() as int, 0, k - 1);
        lemma_results_of_ops_push(old, new, ops, k - 1);
        let op = ops[k - 1];
        let a = old_covered(ops, k - 1);
        assert(old_covered(ops, k) == a + op_old_len(op));
        let b = results_of_op(old, new, op);
        match op {
            EditOp::Replace { old_index, old_len, new_index, new_len } => {
                let os = old.subrange(old_index as int, old_index + old_len);
                let ns = new.subrange(new_index as int, new_index + new_len);
                assert(ns.len() == 0);
                lemma_replace_one_side(os, ns);
                assert(all_deleted(os) =~= all_deleted(old.take(a + op_old_len(op))).subrange(a, a + op_old_len(op)));
            },
            _ => {},
        }
        assert(all_deleted(old.take(a + op_old_len(op))) =~= all_deleted(old.take(a)) + b);
    }
}

/// Law: against an empty new document, every old block is deleted, in order.
pub proof fn lemma_to_nothing(old: Seq<BlockModel>, new: Seq<BlockModel>, ops: Seq<EditOp>)
    requires
        new.len() == 0,
        ops_tile(ops, old.len() as int, 0),
    ensures
        results_of_ops(old, new, ops) == all_deleted(old),
{
    lemma_to_nothing_prefix(old, new, ops, ops.len() as int);
    assert(ops.take(ops.len() as int) =~= ops);
    assert(old.take(old.len() as int) =~= old);
}

proof fn lemma_greedy_covers(sorted: Seq<Candidate>, n_old: nat, n_new: nat)
    requires
        forall|k: int| 0 <= k < sorted.len() ==> (#[trigger] sorted[k]).0 < n_old && sorted[k].1 < n_new,
    ensures
        forall|q: int|
            0 <= q < sorted.len() ==> greedy(sorted, n_old, n_new).0[(#[trigger] sorted[q]).0 as int] is Some
                || greedy(sorted, n_old, n_new).1[sorted[q].1 as int] is Some,
    decreases sorted.len(),
{
    if sorted.len() > 0 {
        let rest = sorted.drop_last();
        assert forall|k: int| 0 <= k < rest.len() implies (#[trigger] rest[k]).0 < n_old && rest[k].1 < n_new by {
            assert(rest[k] == sorted[k]);
        }
        lemma_greedy_covers(rest, n_old, n_new);
        lemma_greedy_props(rest, n_old, n_new);
        let (mo, mn) = greedy(rest, n_old, n_new);
        let c = sorted.last();
        assert(c == sorted[sorted.len() - 1]);
        let g = greedy(sorted, n_old, n_new);
        assert forall|q: int| 0 <= q < sorted.len() implies g.0[(#[trigger] sorted[q]).0 as int] is Some
            || g.1[sorted[q].1 as int] is Some by {
            if q < rest.len() {
                assert(sorted[q] == rest[q]);
                assert(mo[rest[q].0 as int] is Some || mn[rest[q].1 as int] is Some);
            }
        }
    }
}

proof fn lemma_row_contains(old: Seq<BlockModel>, new: Seq<BlockModel>, oi: int, j: int, ni: int)
    requires
        0 <= ni < j,
        pair_candidate(old, new, oi, ni) is Some,
    ensures
        row_candidates(old, new, oi, j).contains(pair_candidate(old, new, oi, ni)->0),
    decreases j,
{
    let c = pair_candidate(old, new, oi, ni)->0;
    let r = row_candidates(old, new, oi, j);
    let r0 = row_candidates(old, new, oi, j - 1);
    if ni == j - 1 {
        assert(r[r.len() - 1] == c);
    } else {
        lemma_row_contains(old, new, oi, j - 1, ni);
        let w = choose|w: int| 0 <= w < r0.len() && r0[w] == c;
        assert(r[w] == c);
    }
}

proof fn lemma_candidates_contains(old: Seq<BlockModel>, new: Seq<BlockModel>, i: int, oi: int, ni: int)
    requires
        0 <= oi < i,
        0 <= ni < new.len(),
        pair_candidate(old, new, oi, ni) is Some,
    ensures
        candidates(old, new, i).contains(pair_candidate(old, new, oi, ni)->0),
    decreases i,
{
    let c = pair_candidate(old, new, oi, ni)->0;
    let a = candidates(old, new, i - 1);
    let r = row_candidates(old, new, i - 1, new.len() as int);
    if oi == i - 1 {
        lemma_row_contains(old, new, oi, new.len() as int, ni);
        let w = choose|w: int| 0 <= w < r.len() && r[w] == c;
        assert(candidates(old, new, i)[a.len() + w] == c);
    } else {
        lemma_candidates_contains(old, new, i - 1, oi, ni);
        let w = choose|w: int| 0 <= w < a.len() && a[w] == c;
        assert(candidates(old, new, i)[w] == c);
    }
}

/// Law: the matching of a replaced run is maximal: no old block and new
/// block that could be paired (same kind, neither atomic, texts similar
/// enough) are both left unpaired.
pub proof fn lemma_matching_maximal(old: Seq<BlockModel>, new: Seq<BlockModel>)
    requires
        old.len() <= usize::MAX,
        new.len() <= usize::MAX,
    ensures
        forall|oi: int, ni: int|
            0 <= oi < old.len() && 0 <= ni < new.len() && (#[trigger] pair_candidate(old, new, oi, ni)) is Some
                ==> matching(old, new).0[oi] is Some || matching(old, new).1[ni] is Some,
{
    broadcast use vstd::seq_lib::to_multiset_contains;

    let cs = candidates(old, new, old.len() as int);
    let sorted = sort_by_similarity(cs);
    lemma_sorted_props(old, new);
    lemma_sort_by_similarity(cs);
    lemma_greedy_covers(sorted, old.len(), new.len());
    assert forall|oi: int, ni: int|
        0 <= oi < old.len() && 0 <= ni < new.len() && (#[trigger] pair_candidate(old, new, oi, ni)) is Some implies matching(
        old,
        new,
    ).0[oi] is Some || matching(old, new).1[ni] is Some by {
        let c = pair_candidate(old, new, oi, ni)->0;
        lemma_candidates_contains(old, new, old.len() as int, oi, ni);
        assert(cs.to_multiset().contains(c));
        assert(sorted.to_multiset().contains(c));
        assert(sorted.contains(c));
        let q = choose|q: int| 0 <= q < sorted.len() && sorted[q] == c;
        assert(c.0 == oi && c.1 == ni);
    }
}

/// The results other than deletions, in order: those that stand for a
/// block of the new document.
pub open spec fn without_deletions(rs: Seq<ResultModel>) -> Seq<ResultModel>
    decreases rs.len(),
{
    if rs.len() == 0 {
        Seq::empty()
    } else {
        without_deletions(rs.drop_last()) + if rs.last() is Deleted {
            Seq::empty()
        } else {
            seq![rs.last()]
        }
    }
}

/// Result `r` stands for the new block `b`: it is unchanged from a block
/// with the same signature, it adds `b`, or it modifies a block into one of
/// `b`'s kind whose new side spells `b`'s text.
pub open spec fn stands_for(r: ResultModel, b: BlockModel) -> bool {
    match r {
        ResultModel::Unchanged(x) => spec_signature(x) == spec_signature(b),
        ResultModel::Added(x) => x == b,
        ResultModel::Modified(kind, spans) => kind == spec_kind(b) && spec_diff_text(b) is Some && new_text_of(spans)
            == spec_diff_text(b)->0,
        ResultModel::Deleted(_) => false,
    }
}

/// Dropping the deletions from `rs` leaves one result per block of `new`,
/// in order, each standing for its block.
pub open spec fn corresponds(rs: Seq<ResultModel>, new: Seq<BlockModel>) -> bool {
    &&& without_deletions(rs).len() == new.len()
    &&& forall|i: int| 0 <= i < new.len() ==> stands_for(#[trigger] without_deletions(rs)[i], new[i])
}

pub proof fn lemma_without_deletions_append(a: Seq<ResultModel>, b: Seq<ResultModel>)
    ensures
        without_deletions(a + b) == without_deletions(a) + without_deletions(b),
    decreases b.len(),
{
    if b.len() == 0 {
        assert(a + b =~= a);
        assert(without_deletions(a) + without_deletions(b) =~= without_deletions(a));
    } else {
        lemma_without_deletions_append(a, b.drop_last());
        assert((a + b).drop_last() =~= a + b.drop_last());
        let t = if b.last() is Deleted {
            Seq::<ResultModel>::empty()
        } else {
            seq![b.last()]
        };
        assert(without_deletions(a) + without_deletions(b) =~= without_deletions(a) + without_deletions(b.drop_last()) + t);
    }
}

pub proof fn lemma_corresponds_append(a: Seq<ResultModel>, na: Seq<BlockModel>, b: Seq<ResultModel>, nb: Seq<BlockModel>)
    requires
        corresponds(a, na),
        corresponds(b, nb),
    ensures
        corresponds(a + b, na + nb),
{
    lemma_without_deletions_append(a, b);
    let w = without_deletions(a + b);
    assert forall|i: int| 0 <= i < (na + nb).len() implies stands_for(#[trigger] w[i], (na + nb)[i]) by {
        if i < na.len() {
            assert(w[i] == without_deletions(a)[i]);
        } else {
            assert(w[i] == without_deletions(b)[i - na.len()]);
        }
    }
}

proof fn lemma_without_no_deletions(rs: Seq<ResultModel>)
    requires
        forall|i: int| 0 <= i < rs.len() ==> !((#[trigger] rs[i]) is Deleted),
    ensures
        without_deletions(rs) == rs,
    decreases rs.len(),
{
    if rs.len() == 0 {
        assert(without_deletions(rs) =~= rs);
    } else {
        lemma_without_no_deletions(rs.drop_last());
        assert(rs.drop_last().push(rs.last()) =~= rs);
    }
}

proof fn lemma_without_only_deletions(rs: Seq<ResultModel>)
    requires
        forall|i: int| 0 <= i < rs.len() ==> (#[trigger] rs[i]) is Deleted,
    ensures
        without_deletions(rs) == Seq::<ResultModel>::empty(),
    decreases rs.len(),
{
    if rs.len() > 0 {
        lemma_without_only_deletions(rs.drop_last());
        assert(without_deletions(rs) =~= Seq::<ResultModel>::empty());
    }
}

/// Each of the first `k` results for the new side of a replaced run stands
/// for its new block.
pub open spec fn new_side_ok(old: Seq<BlockModel>, new: Seq<BlockModel>, mn: Seq<Option<usize>>, k: int) -> bool
    decreases k,
{
    k <= 0 || (new_side_ok(old, new, mn, k - 1) && stands_for(new_side(old, new, mn, k).last(), new[k - 1]))
}

proof fn lemma_new_side_corresponds(old: Seq<BlockModel>, new: Seq<BlockModel>, mn: Seq<Option<usize>>, k: int)
    requires
        0 <= k <= new.len(),
        new_side_ok(old, new, mn, k),
    ensures
        corresponds(new_side(old, new, mn, k), new.take(k)),
    decreases k,
{
    if k == 0 {
        assert(new_side(old, new, mn, 0) =~= Seq::<ResultModel>::empty());
        assert(new.take(0) =~= Seq::<BlockModel>::empty());
    } else {
        lemma_new_side_corresponds(old, new, mn, k - 1);
        let a = new_side(old, new, mn, k - 1);
        let x = new_side(old, new, mn, k).last();
        assert(new_side(old, new, mn, k) == a + seq![x]);
        assert(!(x is Deleted));
        lemma_without_no_deletions(seq![x]);
        assert(corresponds(seq![x], seq![new[k - 1]]));
        lemma_corresponds_append(a, new.take(k - 1), seq![x], seq![new[k - 1]]);
        assert(new.take(k - 1) + seq![new[k - 1]] =~= new.take(k));
    }
}

proof fn lemma_unpaired_corresponds(old: Seq<BlockModel>, mo: Seq<Option<usize>>, k: int)
    requires
        0 <= k,
    ensures
        corresponds(unpaired_deleted(old, mo, k), Seq::<BlockModel>::empty()),
{
    lemma_unpaired_deleted_kinds(old, mo, k);
    lemma_without_only_deletions(unpaired_deleted(old, mo, k));
}

/// The results of a replaced run stand for its new blocks, when each result
/// for a new block does.
proof fn lemma_replace_corresponds(old: Seq<BlockModel>, new: Seq<BlockModel>)
    requires
        new_side_ok(old, new, matching(old, new).1, new.len() as int),
    ensures
        corresponds(replace_results(old, new), new),
{
    let (mo, mn) = matching(old, new);
    lemma_unpaired_corresponds(old, mo, old.len() as int);
    lemma_new_side_corresponds(old, new, mn, new.len() as int);
    lemma_corresponds_append(
        unpaired_deleted(old, mo, old.len() as int),
        Seq::empty(),
        new_side(old, new, mn, new.len() as int),
        new.take(new.len() as int),
    );
    assert(Seq::<BlockModel>::empty() + new.take(new.len() as int) =~= new);
}

/// One more operation of a block-level edit script keeps the results
/// standing for the new blocks covered so far.
proof fn lemma_results_step_corresponds(old: Seq<BlockModel>, new: Seq<BlockModel>, ops: Seq<EditOp>, k: int)
    requires
        ops_tile(ops, old.len() as int, new.len() as int),
        equal_ops_agree(ops, signatures(old), signatures(new)),
        0 <= k < ops.len(),
        corresponds(results_of_ops(old, new, ops.take(k)), new.take(new_covered(ops, k))),
        ops[k] matches EditOp::Replace { old_index, old_len, new_index, new_len } ==> corresponds(
            replace_results(
                old.subrange(old_index as int, old_index + old_len),
                new.subrange(new_index as int, new_index + new_len),
            ),
            new.subrange(new_index as int, new_index + new_len),
        ),
    ensures
        corresponds(results_of_ops(old, new, ops.take(k + 1)), new.take(new_covered(ops, k + 1))),
{
    lemma_tile_bounds(ops, old.len() as int, new.len() as int, k);
    lemma_results_of_ops_push(old, new, ops, k);
    let op = ops[k];
    let a = new_covered(ops, k);
    let len = op_new_len(op);
    assert(new_covered(ops, k + 1) == a + len);
    let piece = new.subrange(a, a + len);
    let b = results_of_op(old, new, op);
    match op {
        EditOp::Equal { old_index, new_index, len: l } => {
            lemma_without_no_deletions(b);
            assert forall|i: int| 0 <= i < piece.len() implies stands_for(#[trigger] without_deletions(b)[i], piece[i]) by {
                assert(signatures(old).subrange(old_index as int, old_index + l)[i] == signatures(new).subrange(
                    new_index as int,
                    new_index + l,
                )[i]);
            }
        },
        EditOp::Delete { .. } => {
            lemma_without_only_deletions(b);
            assert(piece =~= Seq::<BlockModel>::empty());
        },
        EditOp::Insert { .. } => {
            lemma_without_no_deletions(b);
        },
        EditOp::Replace { .. } => {},
    }
    assert(corresponds(b, piece));
    lemma_corresponds_append(results_of_ops(old, new, ops.take(k)), new.take(a), b, piece);
    assert(new.take(a) + piece =~= new.take(a + len));
}

proof fn lemma_without_deletions_from(rs: Seq<ResultModel>)
    ensures
        forall|i: int| 0 <= i < without_deletions(rs).len() ==> rs.contains(#[trigger] without_deletions(rs)[i]),
    decreases rs.len(),
{
    if rs.len() > 0 {
        let t = rs.drop_last();
        lemma_without_deletions_from(t);
        let w = without_deletions(rs);
        let wt = without_deletions(t);
        assert forall|i: int| 0 <= i < w.len() implies rs.contains(#[trigger] w[i]) by {
            if i < wt.len() {
                assert(w[i] == wt[i]);
                let j = choose|j: int| 0 <= j < t.len() && t[j] == wt[i];
                assert(rs[j] == t[j]);
            } else {
                assert(w[i] == rs[rs.len() - 1]);
            }
        }
    }
}

/// Law: when no term of a term item holds a `:`, a result that stands
/// unchanged for a new block holds exactly that block; so, dropping the
/// deletions, each result is the new block unchanged, the new block added,
/// or a modification of the new block's kind that spells its text.
pub proof fn lemma_unchanged_is_new_block(rs: Seq<ResultModel>, new: Seq<BlockModel>)
    requires
        corresponds(rs, new),
        forall|i: int| 0 <= i < new.len() ==> colon_free_term(#[trigger] new[i]),
        forall|j: int| 0 <= j < rs.len() ==> (#[trigger] rs[j] matches ResultModel::Unchanged(x) ==> colon_free_term(x)),
    ensures
        forall|i: int|
            0 <= i < new.len() ==> (#[trigger] without_deletions(rs)[i] matches ResultModel::Unchanged(x) ==> x == new[i]),
{
    lemma_without_deletions_from(rs);
    let w = without_deletions(rs);
    assert forall|i: int| 0 <= i < new.len() implies (#[trigger] w[i] matches ResultModel::Unchanged(x) ==> x == new[i]) by {
        if let ResultModel::Unchanged(x) = w[i] {
            let j = choose|j: int| 0 <= j < rs.len() && rs[j] == w[i];
            assert(colon_free_term(x));
            lemma_signature_injective(x, new[i]);
        }
    }
}

/// Every unchanged result holds a block of `old`.
pub open spec fn unchanged_from(rs: Seq<ResultModel>, old: Seq<BlockModel>) -> bool {
    forall|j: int| 0 <= j < rs.len() ==> (#[trigger] rs[j] matches ResultModel::Unchanged(x) ==> old.contains(x))
}

proof fn lemma_new_side_not_unchanged(old: Seq<BlockModel>, new: Seq<BlockModel>, mn: Seq<Option<usize>>, k: int)
    requires
        0 <= k,
    ensures
        forall|j: int| 0 <= j < new_side(old, new, mn, k).len() ==> !((#[trigger] new_side(old, new, mn, k)[j]) is Unchanged),
    decreases k,
{
    if k > 0 {
        lemma_new_side_not_unchanged(old, new, mn, k - 1);
        let a = new_side(old, new, mn, k - 1);
        let r = new_side(old, new, mn, k);
        assert forall|j: int| 0 <= j < r.len() implies !((#[trigger] r[j]) is Unchanged) by {
            if j < a.len() {
                assert(r[j] == a[j]);
            }
        }
    }
}

proof fn lemma_unchanged_from_prefix(old: Seq<BlockModel>, new: Seq<BlockModel>, ops: Seq<EditOp>, k: int)
    requires
        ops_tile(ops, old.len() as int, new.len() as int),
        0 <= k <= ops.len(),
    ensures
        unchanged_from(results_of_ops(old, new, ops.take(k)), old),
    decreases k,
{
    if k == 0 {
        assert(ops.take(0) =~= Seq::<EditOp>::empty());
    } else {
        lemma_unchanged_from_prefix(old, new, ops, k - 1);
        lemma_tile_bounds(ops, old.len() as int, new.len() as int, k - 1);
        lemma_results_of_ops_push(old, new, ops, k - 1);
        let a = results_of_ops(old, new, ops.take(k - 1));
        let op = ops[k - 1];
        let b = results_of_op(old, new, op);
        if let EditOp::Replace { old_index, old_len, new_index, new_len } = op {
            let os = old.subrange(old_index as int, old_index + old_len);
            let ns = new.subrange(new_index as int, new_index + new_len);
            let (mo, mn) = matching(os, ns);
            lemma_unpaired_deleted_kinds(os, mo, os.len() as int);
            lemma_new_side_not_unchanged(os, ns, mn, ns.len() as int);
            let d = unpaired_deleted(os, mo, os.len() as int);
            assert forall|j: int| 0 <= j < b.len() implies !((#[trigger] b[j]) is Unchanged) by {
                if j < d.len() {
                    assert(b[j] == d[j]);
                } else {
                    assert(b[j] == new_side(os, ns, mn, ns.len() as int)[j - d.len()]);
                }
            }
        }
        let r = a + b;
        assert forall|j: int| 0 <= j < r.len() implies (#[trigger] r[j] matches ResultModel::Unchanged(x) ==> old.contains(
            x,
        )) by {
            if j < a.len() {
                assert(r[j] == a[j]);
            } else {
                assert(r[j] == b[j - a.len()]);
                if let EditOp::Equal { old_index, .. } = op {
                    assert(old[old_index + (j - a.len())] == b[j - a.len()]->Unchanged_0);
                }
            }
        }
    }
}

/// Law: every unchanged result of a block-level edit script holds an old
/// block.
pub proof fn lemma_unchanged_from_ops(old: Seq<BlockModel>, new: Seq<BlockModel>, ops: Seq<EditOp>)
    requires
        ops_tile(ops, old.len() as int, new.len() as int),
    ensures
        unchanged_from(results_of_ops(old, new, ops), old),
{
    lemma_unchanged_from_prefix(old, new, ops, ops.len() as int);
    assert(ops.take(ops.len() as int) =~= ops);
}

/// Law: an old and a new block of the same kind, neither atomic and both
/// with text, whose texts are similar enough (matching characters at least
/// a quarter of both texts' characters, that is a similarity ratio of at
/// least one half) may be paired, whatever their kind.
pub proof fn lemma_similar_blocks_are_candidates(old: Seq<BlockModel>, new: Seq<BlockModel>, oi: int, ni: int)
    requires
        0 <= oi < old.len() <= usize::MAX,
        0 <= ni < new.len() <= usize::MAX,
        !spec_is_atomic(old[oi]),
        !spec_is_atomic(new[ni]),
        spec_kind(old[oi]) == spec_kind(new[ni]),
        spec_diff_text(old[oi]) is Some,
        spec_diff_text(new[ni]) is Some,
        similarity(spec_diff_text(old[oi])->0, spec_diff_text(new[ni])->0).1 <= usize::MAX,
        ({
            let (m, t) = similarity(spec_diff_text(old[oi])->0, spec_diff_text(new[ni])->0);
            t == 0 || 4 * m >= t
        }),
    ensures
        pair_candidate(old, new, oi, ni) == Some(
            (
                oi as usize,
                ni as usize,
                similarity(spec_diff_text(old[oi])->0, spec_diff_text(new[ni])->0).0 as usize,
                similarity(spec_diff_text(old[oi])->0, spec_diff_text(new[ni])->0).1 as usize,
            ),
        ),
{
}

/// Law: a replaced run of one old block and one new block of the same kind,
/// neither atomic, whose texts are similar enough, is one modification:
/// the word-level diff of the two texts, of their kind.
pub proof fn lemma_similar_pair_modified(o: BlockModel, n: BlockModel)
    requires
        !spec_is_atomic(o),
        !spec_is_atomic(n),
        spec_kind(o) == spec_kind(n),
        spec_diff_text(o) is Some,
        spec_diff_text(n) is Some,
        similarity(spec_diff_text(o)->0, spec_diff_text(n)->0).1 <= usize::MAX,
        ({
            let (m, t) = similarity(spec_diff_text(o)->0, spec_diff_text(n)->0);
            t == 0 || 4 * m >= t
        }),
    ensures
        replace_results(seq![o], seq![n]) == seq![
            ResultModel::Modified(spec_kind(n), word_diff_spans(spec_diff_text(o)->0, spec_diff_text(n)->0)),
        ],
{
    let old = seq![o];
    let new = seq![n];
    lemma_similar_blocks_are_candidates(old, new, 0, 0);
    let c = pair_candidate(old, new, 0, 0)->0;
    assert(row_candidates(old, new, 0, 0) =~= Seq::<Candidate>::empty());
    assert(row_candidates(old, new, 0, 1) =~= seq![c]);
    assert(candidates(old, new, 0) =~= Seq::<Candidate>::empty());
    assert(candidates(old, new, 1) =~= seq![c]);
    let cs = seq![c];
    assert(cs.drop_last() =~= Seq::<Candidate>::empty());
    assert(sort_by_similarity(Seq::<Candidate>::empty()) =~= Seq::<Candidate>::empty());
    assert(insert_pos(Seq::<Candidate>::empty(), c, 0) == 0);
    assert(sort_by_similarity(cs) =~= cs);
    let g0 = greedy(Seq::<Candidate>::empty(), 1, 1);
    assert(g0.0[0] is None && g0.1[0] is None);
    let (mo, mn) = greedy(cs, 1, 1);
    assert(mo[0] == Some(0usize));
    assert(mn[0] == Some(0usize));
    assert(unpaired_deleted(old, mo, 0) =~= Seq::<ResultModel>::empty());
    assert(unpaired_deleted(old, mo, 1) =~= Seq::<ResultModel>::empty());
    assert(new_side(old, new, mn, 0) =~= Seq::<ResultModel>::empty());
    assert(replace_results(old, new) =~= new_side(old, new, mn, 1));
}

} // verus!
