//! Edit scripts: runs of alignment operations over a query sequence.

use vstd::prelude::*;

verus! {

/// One kind of alignment operation, as written in a CIGAR string.
#[derive(Clone, Copy, Debug, PartialEq, Eq, Structural)]
pub enum CigarOp {
    /// `M`: aligned, match or mismatch.
    Match,
    /// `I`: present in the query only.
    Insertion,
    /// `D`: present in the target only.
    Deletion,
    /// `N`: skipped region of the target.
    Skip,
    /// `S`: soft clip.
    SoftClip,
    /// `H`: hard clip.
    HardClip,
    /// `P`: padding.
    Padding,
    /// `=`: exact match.
    Equal,
    /// `X`: mismatch.
    Mismatch,
}

/// One run of an edit script: a length and an operation.
pub type EditRun = (u32, CigarOp);

/// Whether a run of `op` moves the cursor along the query sequence.
pub open spec fn advances_query(op: CigarOp) -> bool {
    op == CigarOp::Equal || op == CigarOp::Match || op == CigarOp::Mismatch || op
        == CigarOp::Insertion
}

/// Executable form of `advances_query`.
pub fn advances(op: CigarOp) -> (r: bool)
    ensures
        r == advances_query(op),
{
    match op {
        CigarOp::Equal | CigarOp::Match | CigarOp::Mismatch | CigarOp::Insertion => true,
        _ => false,
    }
}

/// How far the query cursor has moved before run `i` of the script.
pub open spec fn query_offset(script: Seq<EditRun>, i: int) -> int
    decreases i,
{
    if i <= 0 || i > script.len() {
        0
    } else {
        query_offset(script, i - 1) + if advances_query(script[i - 1].1) {
            script[i - 1].0 as int
        } else {
            0
        }
    }
}

/// Run `i` of the script marks query position `p` when the alignment starts at `start`.
pub open spec fn run_marks(script: Seq<EditRun>, start: int, i: int, p: int) -> bool {
    &&& 0 <= i < script.len()
    &&& script[i].1 == CigarOp::Equal
    &&& start + query_offset(script, i) <= p < start + query_offset(script, i) + script[i].0
}

/// Some run of the script marks query position `p`.
pub open spec fn marks(script: Seq<EditRun>, start: int, p: int) -> bool {
    exists|i: int| #[trigger] run_marks(script, start, i, p)
}

/// The query cursor never moves backwards.
pub proof fn lemma_query_offset_monotone(script: Seq<EditRun>, i: int, j: int)
    requires
        0 <= i <= j <= script.len(),
    ensures
        query_offset(script, i) <= query_offset(script, j),
        i < j && advances_query(script[i].1) ==> query_offset(script, i) + script[i].0
            <= query_offset(script, j),
    decreases j - i,
{
    if i < j {
        lemma_query_offset_monotone(script, i, j - 1);
    }
}

/// The query cursor after run `i` is at most `i` full-length runs.
pub proof fn lemma_query_offset_bound(script: Seq<EditRun>, i: int)
    requires
        0 <= i <= script.len(),
    ensures
        0 <= query_offset(script, i) <= i * (u32::MAX as int),
    decreases i,
{
    if i > 0 {
        lemma_query_offset_bound(script, i - 1);
    }
}

} // verus!
