//! Edit scripts computed by the `similar` crate, held as plain values.
//!
//! An edit script is a sequence of operations that walks both inputs from
//! start to end: every element of the old input is covered by exactly one
//! `Equal`, `Delete` or `Replace` operation, every element of the new input by
//! exactly one `Equal`, `Insert` or `Replace` operation, in order.

use vstd::prelude::*;
use similar::{Algorithm, DiffOp, TextDiff};

verus! {

/// One operation of an edit script (mirrors `similar::DiffOp`).
#[derive(Debug, Clone, Copy, PartialEq, Eq, Structural)]
pub enum EditOp {
    Equal { old_index: usize, new_index: usize, len: usize },
    Delete { old_index: usize, old_len: usize, new_index: usize },
    Insert { old_index: usize, new_index: usize, new_len: usize },
    Replace { old_index: usize, old_len: usize, new_index: usize, new_len: usize },
}

/// The diff algorithm that `similar` is asked to run.
#[derive(Debug, Clone, Copy, PartialEq, Eq, Structural)]
pub enum DiffAlgorithm {
    Myers,
    Patience,
}

pub open spec fn op_old_start(op: EditOp) -> int {
    match op {
        EditOp::Equal { old_index, .. } => old_index as int,
        EditOp::Delete { old_index, .. } => old_index as int,
        EditOp::Insert { old_index, .. } => old_index as int,
        EditOp::Replace { old_index, .. } => old_index as int,
    }
}

pub open spec fn op_new_start(op: EditOp) -> int {
    match op {
        EditOp::Equal { new_index, .. } => new_index as int,
        EditOp::Delete { new_index, .. } => new_index as int,
        EditOp::Insert { new_index, .. } => new_index as int,
        EditOp::Replace { new_index, .. } => new_index as int,
    }
}

/// Number of old elements the operation covers.
pub open spec fn op_old_len(op: EditOp) -> int {
    match op {
        EditOp::Equal { len, .. } => len as int,
        EditOp::Delete { old_len, .. } => old_len as int,
        EditOp::Insert { .. } => 0,
        EditOp::Replace { old_len, .. } => old_len as int,
    }
}

/// Number of new elements the operation covers.
pub open spec fn op_new_len(op: EditOp) -> int {
    match op {
        EditOp::Equal { len, .. } => len as int,
        EditOp::Delete { .. } => 0,
        EditOp::Insert { new_len, .. } => new_len as int,
        EditOp::Replace { new_len, .. } => new_len as int,
    }
}

/// Number of old elements covered by the first `k` operations.
pub open spec fn old_covered(ops: Seq<EditOp>, k: int) -> int
    decreases k,
{
    if k <= 0 {
        0
    } else {
        old_covered(ops, k - 1) + op_old_len(ops[k - 1])
    }
}

/// Number of new elements covered by the first `k` operations.
pub open spec fn new_covered(ops: Seq<EditOp>, k: int) -> int
    decreases k,
{
    if k <= 0 {
        0
    } else {
        new_covered(ops, k - 1) + op_new_len(ops[k - 1])
    }
}

/// The operations cover `old_len` old and `new_len` new elements, each
/// exactly once and in order.
pub open spec fn ops_tile(ops: Seq<EditOp>, old_len: int, new_len: int) -> bool {
    &&& forall|k: int|
        0 <= k < ops.len() ==> op_old_start(#[trigger] ops[k]) == old_covered(ops, k)
            && op_new_start(ops[k]) == new_covered(ops, k)
    &&& old_covered(ops, ops.len() as int) == old_len
    &&& new_covered(ops, ops.len() as int) == new_len
}

/// Every `Equal` operation pairs equal elements.
pub open spec fn equal_ops_agree<T>(ops: Seq<EditOp>, old: Seq<T>, new: Seq<T>) -> bool {
    forall|k: int|
        0 <= k < ops.len() && (#[trigger] ops[k]) is Equal ==> old.subrange(
            op_old_start(ops[k]),
            op_old_start(ops[k]) + op_old_len(ops[k]),
        ) == new.subrange(op_new_start(ops[k]), op_new_start(ops[k]) + op_new_len(ops[k]))
}

/// Every operation of the script is `Equal`.
pub open spec fn all_equal(ops: Seq<EditOp>) -> bool {
    forall|k: int| 0 <= k < ops.len() ==> (#[trigger] ops[k]) is Equal
}

/// The characters of each string.
pub open spec fn strings_view(v: Seq<String>) -> Seq<Seq<char>> {
    v.map_values(|x: String| x@)
}

/// The characters of each string slice.
pub open spec fn strs_view(v: Seq<&str>) -> Seq<Seq<char>> {
    v.map_values(|x: &str| x@)
}

/// Borrows each string as a string slice.
pub fn as_strs(v: &Vec<String>) -> (r: Vec<&str>)
    ensures
        strs_view(r@) == strings_view(v@),
        r@.len() == v@.len(),
{
    let mut r: Vec<&str> = Vec::new();
    let n = v.len();
    let mut i: usize = 0;
    while i < n
        invariant
            n == v@.len(),
            i <= n,
            r@.len() == i,
            strs_view(r@) == strings_view(v@.take(i as int)),
        decreases n - i,
    {
        let x = v[i].as_str();
        let ghost prev = r@;
        r.push(x);
        assert(strs_view(r@) =~= strs_view(prev).push(x@));
        assert(strings_view(v@.take(i + 1)) =~= strings_view(v@.take(i as int)).push(v@[i as int]@));
        i = i + 1;
    }
    assert(v@.take(n as int) =~= v@);
    r
}

/// The edit script that `similar`'s `TextDiff::diff_slices` computes with
/// algorithm `alg` for two sequences of strings.
pub uninterp spec fn slice_diff_ops(
    alg: DiffAlgorithm,
    old: Seq<Seq<char>>,
    new: Seq<Seq<char>>,
) -> Seq<EditOp>;

/// The edit script that `similar`'s `TextDiff::from_chars` computes for two
/// texts, character by character.
pub uninterp spec fn char_diff_ops(old: Seq<char>, new: Seq<char>) -> Seq<EditOp>;

/// Calls `similar::TextDiffConfig::diff_slices` (after
/// `TextDiff::configure().algorithm(alg)`) and returns its `ops()`.
///
/// Claims: the script depends only on the algorithm and the two string
/// sequences; it walks both sequences in order, covering each element once
/// (similar's capture hook records consecutive ranges); and its `Equal`
/// operations pair equal strings; two equal sequences give only `Equal`
/// operations (both algorithms first match the common prefix, which is then
/// everything). Which of the many valid scripts the algorithm picks is not
/// restated.
#[verifier::external_body]
pub(crate) fn diff_slices(alg: DiffAlgorithm, old: &Vec<&str>, new: &Vec<&str>) -> (ops: Vec<EditOp>)
    ensures
        ops@ == slice_diff_ops(alg, strs_view(old@), strs_view(new@)),
        ops_tile(ops@, old@.len() as int, new@.len() as int),
        equal_ops_agree(ops@, strs_view(old@), strs_view(new@)),
        strs_view(old@) == strs_view(new@) ==> all_equal(ops@),
{
    let algorithm = match alg {
        DiffAlgorithm::Myers => Algorithm::Myers,
        DiffAlgorithm::Patience => Algorithm::Patience,
    };
    let diff = TextDiff::configure().algorithm(algorithm).diff_slices(old, new);
    diff.ops().iter().map(|op| match *op {
        DiffOp::Equal { old_index, new_index, len } => EditOp::Equal { old_index, new_index, len },
        DiffOp::Delete { old_index, old_len, new_index } => EditOp::Delete { old_index, old_len, new_index },
        DiffOp::Insert { old_index, new_index, new_len } => EditOp::Insert { old_index, new_index, new_len },
        DiffOp::Replace { old_index, old_len, new_index, new_len } => EditOp::Replace { old_index, old_len, new_index, new_len },
    }).collect()
}

/// Calls `similar::TextDiff::from_chars` and returns its `ops()`.
///
/// Claims: the script depends only on the two texts; it walks both texts
/// character by character, covering each character once; and its `Equal`
/// operations pair equal characters; two equal texts give only `Equal`
/// operations. Which script Myers' algorithm picks is not restated.
#[verifier::external_body]
pub(crate) fn diff_chars(old: &str, new: &str) -> (ops: Vec<EditOp>)
    ensures
        ops@ == char_diff_ops(old@, new@),
        ops_tile(ops@, old@.len() as int, new@.len() as int),
        equal_ops_agree(ops@, old@, new@),
        old@ == new@ ==> all_equal(ops@),
{
    let diff = TextDiff::from_chars(old, new);
    diff.ops().iter().map(|op| match *op {
        DiffOp::Equal { old_index, new_index, len } => EditOp::Equal { old_index, new_index, len },
        DiffOp::Delete { old_index, old_len, new_index } => EditOp::Delete { old_index, old_len, new_index },
        DiffOp::Insert { old_index, new_index, new_len } => EditOp::Insert { old_index, new_index, new_len },
        DiffOp::Replace { old_index, old_len, new_index, new_len } => EditOp::Replace { old_index, old_len, new_index, new_len },
    }).collect()
}

pub proof fn lemma_covered_monotone(ops: Seq<EditOp>, j: int, k: int)
    requires
        0 <= j <= k <= ops.len(),
        forall|i: int| 0 <= i < ops.len() ==> op_old_len(#[trigger] ops[i]) >= 0 && op_new_len(ops[i]) >= 0,
    ensures
        old_covered(ops, j) <= old_covered(ops, k),
        new_covered(ops, j) <= new_covered(ops, k),
    decreases k - j,
{
    if j < k {
        lemma_covered_monotone(ops, j, k - 1);
    }
}

/// Every operation of a tiling script lies within both inputs.
pub proof fn lemma_tile_bounds(ops: Seq<EditOp>, old_len: int, new_len: int, k: int)
    requires
        ops_tile(ops, old_len, new_len),
        0 <= k < ops.len(),
    ensures
        0 <= op_old_start(ops[k]),
        op_old_start(ops[k]) + op_old_len(ops[k]) <= old_len,
        0 <= op_new_start(ops[k]),
        op_new_start(ops[k]) + op_new_len(ops[k]) <= new_len,
{
    assert forall|i: int| 0 <= i < ops.len() implies op_old_len(#[trigger] ops[i]) >= 0 && op_new_len(ops[i]) >= 0 by {
    }
    lemma_covered_monotone(ops, 0, k);
    lemma_covered_monotone(ops, k + 1, ops.len() as int);
}

} // verus!
