//! Uncovered stretches of a coverage mask, as half-open intervals.

use vstd::prelude::*;

verus! {

/// The half-open interval of positions `[start, end)`.
#[derive(Clone, Copy, Debug, PartialEq, Eq, Structural)]
pub struct Interval {
    pub start: usize,
    pub end: usize,
}

/// `[s, e)` is a maximal non-empty run of uncovered positions of `mask`.
pub open spec fn is_uncovered_run(mask: Seq<bool>, s: int, e: int) -> bool {
    &&& 0 <= s < e <= mask.len()
    &&& forall|p: int| s <= p < e ==> !#[trigger] mask[p]
    &&& s == 0 || mask[s - 1]
    &&& e == mask.len() || mask[e]
}

/// Some interval of `r` holds position `p`.
pub open spec fn covers(r: Seq<Interval>, p: int) -> bool {
    exists|k: int| 0 <= k < r.len() && #[trigger] r[k].start <= p < r[k].end
}

/// The intervals are in increasing order, each ending before the next begins.
pub open spec fn strictly_ordered(r: Seq<Interval>) -> bool {
    forall|k: int, l: int| 0 <= k < l < r.len() ==> #[trigger] r[k].end < #[trigger] r[l].start
}

/// `r` lists the uncovered runs of `mask`: each interval is a maximal run,
/// the intervals are ordered and apart, and together they hold exactly the
/// uncovered positions.
pub open spec fn uncovered_runs_of(mask: Seq<bool>, r: Seq<Interval>) -> bool {
    &&& forall|k: int| 0 <= k < r.len() ==> is_uncovered_run(mask, #[trigger] r[k].start as int, r[k].end as int)
    &&& strictly_ordered(r)
    &&& forall|p: int| 0 <= p < mask.len() ==> (!mask[p] <==> covers(r, p))
}

/// The listing of the uncovered runs of `mask`.
pub open spec fn uncovered_runs(mask: Seq<bool>) -> Seq<Interval> {
    choose|r: Seq<Interval>| uncovered_runs_of(mask, r)
}

/// Scans `mask` from left to right and lists its maximal runs of uncovered
/// positions, in order. A run at the start of the mask and a run that
/// reaches its end are both listed.
pub fn uncovered_intervals(mask: &Vec<bool>) -> (r: Vec<Interval>)
    ensures
        uncovered_runs_of(mask@, r@),
        r@ == uncovered_runs(mask@),
{
    let n = mask.len();
    let mut out: Vec<Interval> = Vec::new();
    let mut prev: bool = true;
    let mut run_start: usize = 0;
    let mut i: usize = 0;
    while i < n
        invariant
            n == mask@.len(),
            0 <= i <= n,
            prev == (i == 0 || mask@[i - 1]),
            !prev ==> run_start < i && (run_start == 0 || mask@[run_start - 1]),
            !prev ==> forall|p: int| run_start <= p < i ==> !#[trigger] mask@[p],
            forall|k: int| 0 <= k < out@.len() ==> is_uncovered_run(mask@, #[trigger] out@[k].start as int, out@[k].end as int),
            forall|k: int| 0 <= k < out@.len() ==> #[trigger] out@[k].end <= i,
            !prev ==> forall|k: int| 0 <= k < out@.len() ==> #[trigger] out@[k].end < run_start,
            strictly_ordered(out@),
            forall|p: int|
                0 <= p < i ==> (!mask@[p] <==> (covers(out@, p) || (!prev && run_start <= p))),
        decreases n - i,
    {
        let cur = mask[i];
        if prev && !cur {
            run_start = i;
            proof {
                assert forall|k: int| 0 <= k < out@.len() implies #[trigger] out@[k].end < run_start by {
                    assert(is_uncovered_run(mask@, out@[k].start as int, out@[k].end as int));
                }
            }
        } else if !prev && cur {
            let ghost old_out = out@;
            out.push(Interval { start: run_start, end: i });
            proof {
                assert(out@[old_out.len() as int] == Interval { start: run_start, end: i });
                assert forall|p: int| 0 <= p < i + 1 implies (!mask@[p] <==> covers(out@, p)) by {
                    if covers(old_out, p) {
                        let k = choose|k: int| 0 <= k < old_out.len() && #[trigger] old_out[k].start <= p < old_out[k].end;
                        assert(out@[k] == old_out[k]);
                    }
                    if run_start <= p < i {
                        assert(out@[old_out.len() as int].start <= p < out@[old_out.len() as int].end);
                    }
                    if covers(out@, p) {
                        let k = choose|k: int| 0 <= k < out@.len() && #[trigger] out@[k].start <= p < out@[k].end;
                        if k < old_out.len() {
                            assert(old_out[k] == out@[k]);
                        }
                    }
                }
            }
        } else {
            proof {
                assert forall|p: int| 0 <= p < i + 1 implies (!mask@[p] <==> (covers(out@, p) || (!cur && run_start <= p))) by {
                    if p == i && covers(out@, p) {
                        let k = choose|k: int| 0 <= k < out@.len() && #[trigger] out@[k].start <= p < out@[k].end;
                    }
                }
            }
        }
        prev = cur;
        i = i + 1;
    }
    if !prev {
        let ghost old_out = out@;
        out.push(Interval { start: run_start, end: n });
        proof {
            assert(out@[old_out.len() as int] == Interval { start: run_start, end: n });
            assert forall|p: int| 0 <= p < n implies (!mask@[p] <==> covers(out@, p)) by {
                if covers(old_out, p) {
                    let k = choose|k: int| 0 <= k < old_out.len() && #[trigger] old_out[k].start <= p < old_out[k].end;
                    assert(out@[k] == old_out[k]);
                }
                if run_start <= p < n {
                    assert(out@[old_out.len() as int].start <= p < out@[old_out.len() as int].end);
                }
                if covers(out@, p) {
                    let k = choose|k: int| 0 <= k < out@.len() && #[trigger] out@[k].start <= p < out@[k].end;
                    if k < old_out.len() {
                        assert(old_out[k] == out@[k]);
                    }
                }
            }
        }
    }
    proof {
        assert(uncovered_runs_of(mask@, out@));
        lemma_uncovered_runs_unique(mask@, out@, uncovered_runs(mask@));
    }
    out
}

/// A position where a run of uncovered positions begins is the start of
/// some listed interval.
proof fn lemma_run_start_listed(mask: Seq<bool>, r: Seq<Interval>, p: int) -> (l: int)
    requires
        uncovered_runs_of(mask, r),
        0 <= p < mask.len(),
        !mask[p],
        p == 0 || mask[p - 1],
    ensures
        0 <= l < r.len(),
        r[l].start == p,
{
    assert(covers(r, p));
    let l = choose|l: int| 0 <= l < r.len() && #[trigger] r[l].start <= p < r[l].end;
    assert(is_uncovered_run(mask, r[l].start as int, r[l].end as int));
    if r[l].start < p {
        assert(!mask[p - 1]);
    }
    l
}

/// Two listings that agree before index `k` cannot have the first one's
/// interval `k` start before the second one's.
proof fn lemma_no_earlier_start(mask: Seq<bool>, a: Seq<Interval>, b: Seq<Interval>, k: int)
    requires
        uncovered_runs_of(mask, a),
        uncovered_runs_of(mask, b),
        0 <= k < a.len(),
        k < b.len(),
        forall|j: int| 0 <= j < k ==> a[j] == b[j],
    ensures
        a[k].start >= b[k].start,
{
    if a[k].start < b[k].start {
        let s = a[k].start as int;
        assert(is_uncovered_run(mask, a[k].start as int, a[k].end as int));
        let l = lemma_run_start_listed(mask, b, s);
        assert(is_uncovered_run(mask, b[k].start as int, b[k].end as int));
        if l > k {
            assert(b[k].end < b[l].start);
        }
        assert(l != k);
        assert(a[l] == b[l]);
        assert(is_uncovered_run(mask, a[l].start as int, a[l].end as int));
        assert(a[l].end < a[k].start);
    }
}

/// Two listings that agree before index `k` agree at `k`.
proof fn lemma_agree_at(mask: Seq<bool>, a: Seq<Interval>, b: Seq<Interval>, k: int)
    requires
        uncovered_runs_of(mask, a),
        uncovered_runs_of(mask, b),
        0 <= k < a.len(),
        k < b.len(),
        forall|j: int| 0 <= j < k ==> a[j] == b[j],
    ensures
        a[k] == b[k],
{
    lemma_no_earlier_start(mask, a, b, k);
    lemma_no_earlier_start(mask, b, a, k);
    assert(is_uncovered_run(mask, a[k].start as int, a[k].end as int));
    assert(is_uncovered_run(mask, b[k].start as int, b[k].end as int));
    if a[k].end < b[k].end {
        assert(!mask[a[k].end as int]);
    }
    if b[k].end < a[k].end {
        assert(!mask[b[k].end as int]);
    }
}

proof fn lemma_agree_below(mask: Seq<bool>, a: Seq<Interval>, b: Seq<Interval>, k: int)
    requires
        uncovered_runs_of(mask, a),
        uncovered_runs_of(mask, b),
        0 <= k <= a.len(),
        k <= b.len(),
    ensures
        forall|j: int| 0 <= j < k ==> a[j] == b[j],
    decreases k,
{
    if k > 0 {
        lemma_agree_below(mask, a, b, k - 1);
        lemma_agree_at(mask, a, b, k - 1);
    }
}

/// A listing that agrees with another one on all of the other one's
/// intervals has no interval beyond them.
proof fn lemma_no_extra(mask: Seq<bool>, a: Seq<Interval>, b: Seq<Interval>)
    requires
        uncovered_runs_of(mask, a),
        uncovered_runs_of(mask, b),
        b.len() <= a.len(),
        forall|j: int| 0 <= j < b.len() ==> a[j] == b[j],
    ensures
        a.len() == b.len(),
{
    if a.len() != b.len() {
        let m = b.len() as int;
        assert(is_uncovered_run(mask, a[m].start as int, a[m].end as int));
        let l = lemma_run_start_listed(mask, b, a[m].start as int);
        assert(a[l] == b[l]);
        assert(is_uncovered_run(mask, a[l].start as int, a[l].end as int));
        assert(a[l].end < a[m].start);
    }
}

/// A mask has exactly one listing of its uncovered runs, so the extractor
/// gives the same intervals every time it is run on the same mask.
pub proof fn lemma_uncovered_runs_unique(mask: Seq<bool>, a: Seq<Interval>, b: Seq<Interval>)
    requires
        uncovered_runs_of(mask, a),
        uncovered_runs_of(mask, b),
    ensures
        a == b,
{
    if a.len() <= b.len() {
        lemma_agree_below(mask, a, b, a.len() as int);
        lemma_no_extra(mask, b, a);
    } else {
        lemma_agree_below(mask, a, b, b.len() as int);
        lemma_no_extra(mask, a, b);
    }
    assert(a =~= b);
}

} // verus!
