//! The coverage masks of one query sequence, and the walk that fills them.

use vstd::prelude::*;

use crate::edit_script::{
    advances, lemma_query_offset_bound, lemma_query_offset_monotone, marks,
    query_offset, run_marks, CigarOp, EditRun,
};

verus! {

/// Some run before run `k` of the script marks query position `p`.
pub open spec fn marks_before(script: Seq<EditRun>, start: int, k: int, p: int) -> bool {
    exists|j: int| 0 <= j < k && #[trigger] run_marks(script, start, j, p)
}

/// Every position that `script` marks from `start` lies below `n`.
pub open spec fn in_range(script: Seq<EditRun>, start: int, n: int) -> bool {
    forall|p: int| marks(script, start, p) ==> p < n
}

/// `position` is the least position at or past `n` that `script` marks from `start`.
pub open spec fn marks_least_out_of_range(script: Seq<EditRun>, start: int, n: int, position: int) -> bool {
    &&& marks(script, start, position)
    &&& position >= n
    &&& forall|q: int| marks(script, start, q) && q >= n ==> position <= q
}

/// The covered mask after marking `script` from `start` on top of `aligned`.
pub open spec fn aligned_after(aligned: Seq<bool>, script: Seq<EditRun>, start: int) -> Seq<bool> {
    Seq::new(aligned.len(), |p: int| aligned[p] || marks(script, start, p))
}

/// The multiply covered mask after marking `script` from `start` on top of
/// `aligned` and `multi`: a position marked again that was already covered.
pub open spec fn multi_after(
    aligned: Seq<bool>,
    multi: Seq<bool>,
    script: Seq<EditRun>,
    start: int,
) -> Seq<bool> {
    Seq::new(multi.len(), |p: int| multi[p] || (aligned[p] && marks(script, start, p)))
}

/// Number of `true` entries of a mask.
pub open spec fn count_true(s: Seq<bool>) -> nat
    decreases s.len(),
{
    if s.len() == 0 {
        0
    } else {
        count_true(s.drop_last()) + if s.last() {
            1nat
        } else {
            0nat
        }
    }
}

/// A mask whose entries imply those of another has no more `true` entries.
pub proof fn lemma_count_subset(m: Seq<bool>, a: Seq<bool>)
    requires
        m.len() == a.len(),
        forall|i: int| 0 <= i < m.len() && #[trigger] m[i] ==> a[i],
    ensures
        count_true(m) <= count_true(a),
    decreases m.len(),
{
    if m.len() > 0 {
        lemma_count_subset(m.drop_last(), a.drop_last());
    }
}

/// A mask has at most as many `true` entries as it has entries.
pub proof fn lemma_count_bound(s: Seq<bool>)
    ensures
        count_true(s) <= s.len(),
    decreases s.len(),
{
    if s.len() > 0 {
        lemma_count_bound(s.drop_last());
    }
}

/// A group as its name, its covered mask and its multiply covered mask.
pub type GroupView = (Seq<u8>, Seq<bool>, Seq<bool>);

/// The counts of a group with these masks.
pub open spec fn stats_of(aligned: Seq<bool>, multi: Seq<bool>) -> GroupStats {
    GroupStats {
        sequence_length: aligned.len() as usize,
        aligned_len: count_true(aligned) as usize,
        unique_len: (count_true(aligned) - count_true(multi)) as usize,
        multi_len: count_true(multi) as usize,
        nonaligned_len: (aligned.len() - count_true(aligned)) as usize,
    }
}

/// For every group, covered and uncovered positions make up the sequence,
/// and singly and multiply covered positions make up the covered ones.
pub proof fn lemma_group_counts_add_up(aligned: Seq<bool>, multi: Seq<bool>)
    requires
        aligned.len() == multi.len(),
        aligned.len() <= usize::MAX,
        forall|p: int| 0 <= p < multi.len() && #[trigger] multi[p] ==> aligned[p],
    ensures
        stats_of(aligned, multi).wf(),
        stats_of(aligned, multi).sequence_length == aligned.len(),
{
    lemma_count_subset(multi, aligned);
    lemma_count_bound(aligned);
}

/// The least position at or past `n` that `script` marks from `start`.
pub open spec fn least_out_of_range(script: Seq<EditRun>, start: int, n: int) -> int {
    choose|p: int| marks_least_out_of_range(script, start, n, p)
}

/// There is one least out-of-range position.
pub proof fn lemma_least_out_of_range_unique(script: Seq<EditRun>, start: int, n: int, p: int)
    requires
        marks_least_out_of_range(script, start, n, p),
    ensures
        least_out_of_range(script, start, n) == p,
{
    let q = least_out_of_range(script, start, n);
    assert(marks_least_out_of_range(script, start, n, q));
}

/// A query position that an edit script would mark past the end of the sequence.
#[derive(Clone, Copy, Debug, PartialEq, Eq, Structural)]
pub struct MarkOutOfRange {
    pub position: u128,
}

/// The counts of one finished query sequence.
#[derive(Clone, Copy, Debug, PartialEq, Eq, Structural)]
pub struct GroupStats {
    pub sequence_length: usize,
    pub aligned_len: usize,
    pub unique_len: usize,
    pub multi_len: usize,
    pub nonaligned_len: usize,
}

impl GroupStats {
    /// Covered and uncovered positions make up the sequence; singly and
    /// multiply covered ones make up the covered.
    pub open spec fn wf(&self) -> bool {
        &&& self.aligned_len + self.nonaligned_len == self.sequence_length
        &&& self.unique_len + self.multi_len == self.aligned_len
    }
}

/// The coverage of one query sequence by the records seen so far.
///
/// `aligned[p]` holds once any record has marked position `p`; `multi[p]`
/// once a second record has marked it.
#[derive(Debug)]
pub struct CoverageState {
    pub name: Vec<u8>,
    pub aligned: Vec<bool>,
    pub multi: Vec<bool>,
}

impl CoverageState {
    /// Both masks cover the sequence, and a multiply covered position is covered.
    pub open spec fn wf(&self) -> bool {
        &&& self.aligned@.len() == self.multi@.len()
        &&& forall|p: int| 0 <= p < self.multi@.len() && #[trigger] self.multi@[p] ==> self.aligned@[p]
    }

    pub open spec fn len_spec(&self) -> nat {
        self.aligned@.len()
    }

    /// The counts that a finished state yields.
    pub open spec fn stats_spec(&self) -> GroupStats {
        stats_of(self.aligned@, self.multi@)
    }

    /// The state as its name and its two masks.
    pub open spec fn view(&self) -> GroupView {
        (self.name@, self.aligned@, self.multi@)
    }

    /// A fresh state for a sequence of `length` positions, nothing covered.
    pub fn new(name: Vec<u8>, length: usize) -> (r: CoverageState)
        ensures
            r.wf(),
            r.name == name,
            r.aligned@ == Seq::new(length as nat, |p: int| false),
            r.multi@ == Seq::new(length as nat, |p: int| false),
    {
        let aligned = vec![false; length];
        let multi = vec![false; length];
        CoverageState { name, aligned, multi }
    }

    /// Length of the sequence, which is the length of each mask.
    pub fn sequence_length(&self) -> (r: usize)
        ensures
            r == self.len_spec(),
    {
        self.aligned.len()
    }

    /// The counts of this state: covered, singly covered, multiply covered
    /// and uncovered positions.
    pub fn stats(&self) -> (r: GroupStats)
        requires
            self.wf(),
        ensures
            r == self.stats_spec(),
            r.wf(),
            r.sequence_length == self.len_spec(),
    {
        let aligned_len = popcount(&self.aligned);
        let multi_len = popcount(&self.multi);
        let n = self.aligned.len();
        proof {
            lemma_group_counts_add_up(self.aligned@, self.multi@);
        }
        GroupStats {
            sequence_length: n,
            aligned_len,
            unique_len: aligned_len - multi_len,
            multi_len,
            nonaligned_len: n - aligned_len,
        }
    }

    /// Walks `script`, an alignment that starts at query position `start`,
    /// and marks each position of its exact-match runs.
    ///
    /// A position not yet covered becomes covered; a covered one becomes
    /// multiply covered. If a run would mark a position past the end of the
    /// sequence, nothing is marked and the least such position is returned.
    pub fn mark(&mut self, script: &Vec<EditRun>, start: usize) -> (r: Result<(), MarkOutOfRange>)
        requires
            old(self).wf(),
        ensures
            final(self).wf(),
            final(self).name == old(self).name,
            final(self).len_spec() == old(self).len_spec(),
            r is Ok <==> in_range(script@, start as int, old(self).len_spec() as int),
            r is Ok ==> final(self).aligned@ == aligned_after(
                old(self).aligned@,
                script@,
                start as int,
            ),
            r is Ok ==> final(self).multi@ == multi_after(
                old(self).aligned@,
                old(self).multi@,
                script@,
                start as int,
            ),
            r matches Err(e) ==> *final(self) == *old(self) && marks_least_out_of_range(
                script@,
                start as int,
                old(self).len_spec() as int,
                e.position as int,
            ),
    {
        let n = self.aligned.len();
        if let Err(e) = check_in_range(script, start, n) {
            return Err(e);
        }
        let ghost old_aligned = self.aligned@;
        let ghost old_multi = self.multi@;
        let ghost s = script@;
        let ghost st = start as int;
        let mut i: usize = 0;
        let mut cursor: u128 = start as u128;
        while i < script.len()
            invariant
                0 <= i <= s.len(),
                s == script@,
                st == start as int,
                n == old_aligned.len(),
                self.aligned@.len() == n,
                self.multi@.len() == n,
                self.name == old(self).name,
                old_aligned == old(self).aligned@,
                old_multi == old(self).multi@,
                old(self).wf(),
                cursor == st + query_offset(s, i as int),
                forall|p: int| marks(s, st, p) ==> p < n,
                forall|p: int, j: int| #[trigger] run_marks(s, st, j, p) && j < i ==> p < cursor,
                forall|p: int|
                    0 <= p < n ==> #[trigger] self.aligned@[p] == (old_aligned[p] || marks_before(
                        s,
                        st,
                        i as int,
                        p,
                    )),
                forall|p: int|
                    0 <= p < n ==> #[trigger] self.multi@[p] == (old_multi[p] || (old_aligned[p]
                        && marks_before(s, st, i as int, p))),
            decreases s.len() - i,
        {
            proof {
                lemma_query_offset_bound(s, i as int);
                lemma_query_offset_bound(s, i as int + 1);
                assert(i * (u32::MAX as int) <= usize::MAX * (u32::MAX as int)) by (nonlinear_arith)
                    requires
                        i <= usize::MAX,
                ;
            }
            let (len, op) = script[i];
            if op == CigarOp::Equal {
                let mut o: u32 = 0;
                while o < len
                    invariant
                        0 <= i < s.len(),
                        s == script@,
                        s[i as int] == (len, op),
                        op == CigarOp::Equal,
                        0 <= o <= len,
                        n == old_aligned.len(),
                        self.aligned@.len() == n,
                        self.multi@.len() == n,
                        self.name == old(self).name,
                        cursor == st + query_offset(s, i as int),
                        cursor <= usize::MAX + usize::MAX * (u32::MAX as int),
                        forall|p: int| marks(s, st, p) ==> p < n,
                        forall|p: int, j: int| #[trigger] run_marks(s, st, j, p) && j < i ==> p < cursor,
                        forall|p: int|
                            0 <= p < n ==> #[trigger] self.aligned@[p] == (old_aligned[p]
                                || marks_before(s, st, i as int, p) || (cursor <= p < cursor + o)),
                        forall|p: int|
                            0 <= p < n ==> #[trigger] self.multi@[p] == (old_multi[p] || (
                            old_aligned[p] && (marks_before(s, st, i as int, p) || (cursor <= p
                                < cursor + o)))),
                    decreases len - o,
                {
                    assert(run_marks(s, st, i as int, cursor + o));
                    assert(marks(s, st, cursor + o));
                    let pos: usize = (cursor + o as u128) as usize;
                    if self.aligned[pos] {
                        self.multi.set(pos, true);
                    } else {
                        self.aligned.set(pos, true);
                    }
                    o = o + 1;
                }
            }
            proof {
                assert forall|p: int| 0 <= p < n implies marks_before(s, st, i + 1, p) == (
                marks_before(s, st, i as int, p) || (op == CigarOp::Equal && cursor <= p < cursor
                    + len)) by {
                    if op == CigarOp::Equal && cursor <= p < cursor + len {
                        assert(run_marks(s, st, i as int, p));
                    }
                    if marks_before(s, st, i + 1, p) {
                        let j = choose|j: int| 0 <= j < i + 1 && #[trigger] run_marks(s, st, j, p);
                        if j < i {
                            assert(marks_before(s, st, i as int, p));
                        }
                    }
                }
                assert forall|p: int, j: int| #[trigger]
                    run_marks(s, st, j, p) && j < i + 1 implies p < st + query_offset(
                    s,
                    i + 1,
                ) by {
                    lemma_query_offset_monotone(s, j, i + 1);
                }
            }
            if advances(op) {
                cursor = cursor + len as u128;
            }
            i = i + 1;
        }
        proof {
            assert forall|p: int| 0 <= p < n implies marks_before(s, st, s.len() as int, p) == marks(
                s,
                st,
                p,
            ) by {
                if marks(s, st, p) {
                    let j = choose|j: int| #[trigger] run_marks(s, st, j, p);
                    assert(marks_before(s, st, s.len() as int, p));
                }
            }
            assert forall|p: int| 0 <= p < n && #[trigger] self.multi@[p] implies self.aligned@[p] by {
                assert(old(self).multi@[p] ==> old(self).aligned@[p]);
            }
            assert(self.aligned@ =~= aligned_after(old_aligned, s, st));
            assert(self.multi@ =~= multi_after(old_aligned, old_multi, s, st));
        }
        Ok(())
    }
}

/// Number of `true` entries of `mask`.
pub fn popcount(mask: &Vec<bool>) -> (r: usize)
    ensures
        r == count_true(mask@),
{
    let mut i: usize = 0;
    let mut c: usize = 0;
    while i < mask.len()
        invariant
            0 <= i <= mask@.len(),
            c == count_true(mask@.subrange(0, i as int)),
        decreases mask@.len() - i,
    {
        proof {
            assert(mask@.subrange(0, i + 1).drop_last() == mask@.subrange(0, i as int));
            lemma_count_bound(mask@.subrange(0, i as int));
        }
        if mask[i] {
            c = c + 1;
        }
        i = i + 1;
    }
    assert(mask@.subrange(0, mask@.len() as int) == mask@);
    c
}

/// Checks that every position that `script` marks from `start` is below `n`;
/// if not, returns the least that is not.
fn check_in_range(script: &Vec<EditRun>, start: usize, n: usize) -> (r: Result<(), MarkOutOfRange>)
    ensures
        r is Ok <==> in_range(script@, start as int, n as int),
        r matches Err(e) ==> marks_least_out_of_range(
            script@,
            start as int,
            n as int,
            e.position as int,
        ),
{
    let ghost s = script@;
    let ghost st = start as int;
    let mut i: usize = 0;
    let mut cursor: u128 = start as u128;
    while i < script.len()
        invariant
            0 <= i <= s.len(),
            s == script@,
            st == start as int,
            cursor == st + query_offset(s, i as int),
            forall|p: int, j: int| #[trigger] run_marks(s, st, j, p) && j < i ==> p < n,
        decreases s.len() - i,
    {
        proof {
            lemma_query_offset_bound(s, i as int);
            assert(i * (u32::MAX as int) <= usize::MAX * (u32::MAX as int)) by (nonlinear_arith)
                requires
                    i <= usize::MAX,
            ;
        }
        let (len, op) = script[i];
        if op == CigarOp::Equal && len > 0 && cursor + len as u128 > n as u128 {
            let position: u128 = if cursor > n as u128 {
                cursor
            } else {
                n as u128
            };
            proof {
                assert(run_marks(s, st, i as int, position as int));
                assert(marks(s, st, position as int));
                assert forall|q: int| marks(s, st, q) && q >= n implies position <= q by {
                    let j = choose|j: int| #[trigger] run_marks(s, st, j, q);
                    if j > i {
                        lemma_query_offset_monotone(s, i as int, j);
                    }
                }
            }
            return Err(MarkOutOfRange { position });
        }
        if advances(op) {
            cursor = cursor + len as u128;
        }
        i = i + 1;
    }
    Ok(())
}

} // verus!
