//! The streaming state machine that groups consecutive records by query name.

use vstd::prelude::*;

use crate::coverage::{
    aligned_after, in_range, lemma_least_out_of_range_unique, least_out_of_range, multi_after,
    stats_of, CoverageState, GroupStats, GroupView,
};
use crate::edit_script::EditRun;
use crate::record::{bytes_equal, parse_record, record_spec, AlignmentRecord, RecordError};
use crate::totals::RunningTotals;

verus! {

/// Why a record could not be taken into account.
#[derive(Debug, PartialEq, Eq)]
pub enum CoverageError {
    /// The record's edit script marks `position`, the least such position,
    /// at or past the end of query `sequence`.
    OutOfRange { sequence: Vec<u8>, position: u128 },
    /// The total sequence length would no longer fit in 64 bits.
    TotalsOverflow,
}

/// What one line of input came to.
#[derive(Debug)]
pub enum LineOutcome {
    /// The line holds no GAF record and was passed over.
    Skipped,
    /// The record was taken into account; the group it finished, if any.
    Pushed(Option<FlushedGroup>),
}

/// Why a run stops at a line.
#[derive(Debug, PartialEq, Eq)]
pub enum LineError {
    /// The line is a GAF record whose edit script cannot be had.
    Record(RecordError),
    /// The record does not fit its query sequence, or the totals overflow.
    Coverage(CoverageError),
}

/// A query sequence whose records have all been seen.
#[derive(Debug)]
pub struct FlushedGroup {
    pub name: Vec<u8>,
    pub stats: GroupStats,
    /// The covered mask, from which the uncovered intervals are read.
    pub aligned: Vec<bool>,
}

/// The group being accumulated, if any, and the totals of all finished ones.
#[derive(Debug)]
pub struct Aggregator {
    pub current: Option<CoverageState>,
    pub totals: RunningTotals,
}

/// The aggregator as its current group, if any, and its totals.
pub type AggregatorView = (Option<GroupView>, RunningTotals);

/// A flushed group as its name, its counts and its covered mask.
pub type FlushedView = (Seq<u8>, GroupStats, Seq<bool>);

/// A `CoverageError` with the query name as bytes.
pub enum CoverageErrorView {
    OutOfRange(Seq<u8>, int),
    TotalsOverflow,
}

pub type PushView = Result<Option<FlushedView>, CoverageErrorView>;

/// What a line came to: skipped, pushed (with the group it finished, if
/// any), or stopped by a record error or a coverage error.
pub enum LineView {
    Skipped,
    Pushed(Option<FlushedView>),
    RecordFailed(RecordError),
    CoverageFailed(CoverageErrorView),
}

impl CoverageError {
    pub open spec fn view(&self) -> CoverageErrorView {
        match self {
            CoverageError::OutOfRange { sequence, position } => CoverageErrorView::OutOfRange(
                sequence@,
                *position as int,
            ),
            CoverageError::TotalsOverflow => CoverageErrorView::TotalsOverflow,
        }
    }
}

impl FlushedGroup {
    pub open spec fn view(&self) -> FlushedView {
        (self.name@, self.stats, self.aligned@)
    }
}

pub open spec fn flushed_view(g: Option<FlushedGroup>) -> Option<FlushedView> {
    match g {
        Some(g) => Some(g.view()),
        None => None,
    }
}

pub open spec fn push_view(r: Result<Option<FlushedGroup>, CoverageError>) -> PushView {
    match r {
        Ok(g) => Ok(flushed_view(g)),
        Err(e) => Err(e.view()),
    }
}

pub open spec fn line_view(r: Result<LineOutcome, LineError>) -> LineView {
    match r {
        Ok(LineOutcome::Skipped) => LineView::Skipped,
        Ok(LineOutcome::Pushed(g)) => LineView::Pushed(flushed_view(g)),
        Err(LineError::Record(e)) => LineView::RecordFailed(e),
        Err(LineError::Coverage(e)) => LineView::CoverageFailed(e.view()),
    }
}

/// The aggregator before any record.
pub open spec fn initial_view() -> AggregatorView {
    (None, RunningTotals::zero())
}

/// Finishing the current group: its counts go into the totals and it is
/// handed out. With no group, nothing happens; if the totals would
/// overflow, nothing changes and the result is `TotalsOverflow`.
pub open spec fn flush_spec(v: AggregatorView) -> (AggregatorView, PushView) {
    match v.0 {
        None => (v, Ok(None)),
        Some(c) => {
            let stats = stats_of(c.1, c.2);
            if v.1.can_add(stats) {
                ((None, v.1.add_spec(stats)), Ok(Some((c.0, stats, c.1))))
            } else {
                (v, Err(CoverageErrorView::TotalsOverflow))
            }
        },
    }
}

/// One record, query `name` of `length` positions aligned from `start`
/// with `script`, taken into account.
///
/// A record of the current query marks the current masks. A record of
/// another query starts a fresh group for `name` and finishes the current
/// one, which is handed out. A record that marks a position past the end of
/// its sequence, or a finish that would overflow the totals, changes
/// nothing and gives the error.
pub open spec fn push_spec(
    v: AggregatorView,
    name: Seq<u8>,
    length: usize,
    start: usize,
    script: Seq<EditRun>,
) -> (AggregatorView, PushView) {
    match v.0 {
        Some(c) if c.0 == name => if in_range(script, start as int, c.1.len() as int) {
            (
                (
                    Some(
                        (
                            name,
                            aligned_after(c.1, script, start as int),
                            multi_after(c.1, c.2, script, start as int),
                        ),
                    ),
                    v.1,
                ),
                Ok(None),
            )
        } else {
            (
                v,
                Err(
                    CoverageErrorView::OutOfRange(
                        name,
                        least_out_of_range(script, start as int, c.1.len() as int),
                    ),
                ),
            )
        },
        _ => {
            let fresh = Seq::new(length as nat, |p: int| false);
            if !in_range(script, start as int, length as int) {
                (
                    v,
                    Err(
                        CoverageErrorView::OutOfRange(
                            name,
                            least_out_of_range(script, start as int, length as int),
                        ),
                    ),
                )
            } else {
                let (w, f) = flush_spec(v);
                if f is Ok {
                    ((Some((name, aligned_after(fresh, script, start as int), fresh)), w.1), f)
                } else {
                    (v, f)
                }
            }
        },
    }
}

/// One line of a GAF file taken into account: a line that holds no GAF
/// record is skipped, a record whose edit script cannot be had stops the
/// run, and any other record is pushed.
pub open spec fn line_spec(v: AggregatorView, line: Seq<u8>) -> (AggregatorView, LineView) {
    match record_spec(line) {
        Err(RecordError::Unparsable) => (v, LineView::Skipped),
        Err(e) => (v, LineView::RecordFailed(e)),
        Ok(rec) => {
            let (w, r) = push_spec(v, rec.0, rec.1, rec.2, rec.3);
            match r {
                Ok(g) => (w, LineView::Pushed(g)),
                Err(e) => (w, LineView::CoverageFailed(e)),
            }
        },
    }
}

impl Aggregator {
    pub open spec fn wf(&self) -> bool {
        &&& self.totals.wf()
        &&& self.current matches Some(c) ==> c.wf()
    }

    pub open spec fn view(&self) -> AggregatorView {
        (
            match self.current {
                Some(c) => Some(c.view()),
                None => None,
            },
            self.totals,
        )
    }

    /// No group started, all totals zero.
    pub fn new() -> (r: Aggregator)
        ensures
            r.wf(),
            r.view() == initial_view(),
    {
        Aggregator { current: None, totals: RunningTotals::new() }
    }

    /// Folds the current group, if any, into the totals and hands it back.
    pub fn flush(&mut self) -> (r: Result<Option<FlushedGroup>, CoverageError>)
        requires
            old(self).wf(),
        ensures
            final(self).wf(),
            (final(self).view(), push_view(r)) == flush_spec(old(self).view()),
    {
        match self.current.take() {
            None => Ok(None),
            Some(c) => {
                let stats = c.stats();
                if self.totals.add(&stats) {
                    Ok(Some(FlushedGroup { name: c.name, stats, aligned: c.aligned }))
                } else {
                    self.current = Some(c);
                    Err(CoverageError::TotalsOverflow)
                }
            },
        }
    }

    /// Takes one record into account: query `name` of `length` positions,
    /// aligned from query position `start` with edit script `script`.
    pub fn push(&mut self, name: Vec<u8>, length: usize, start: usize, script: &Vec<EditRun>) -> (r:
        Result<Option<FlushedGroup>, CoverageError>)
        requires
            old(self).wf(),
        ensures
            final(self).wf(),
            (final(self).view(), push_view(r)) == push_spec(
                old(self).view(),
                name@,
                length,
                start,
                script@,
            ),
    {
        let same = match &self.current {
            Some(c) => bytes_equal(c.name.as_slice(), name.as_slice()),
            None => false,
        };
        if same {
            let mut c = self.current.take().unwrap();
            let m = c.mark(script, start);
            self.current = Some(c);
            match m {
                Ok(()) => Ok(None),
                Err(e) => {
                    proof {
                        lemma_least_out_of_range_unique(
                            script@,
                            start as int,
                            c.len_spec() as int,
                            e.position as int,
                        );
                    }
                    Err(CoverageError::OutOfRange { sequence: name, position: e.position })
                },
            }
        } else {
            let mut fresh = CoverageState::new(name, length);
            let m = fresh.mark(script, start);
            if let Err(e) = m {
                proof {
                    lemma_least_out_of_range_unique(
                        script@,
                        start as int,
                        length as int,
                        e.position as int,
                    );
                }
                return Err(CoverageError::OutOfRange { sequence: fresh.name, position: e.position });
            }
            proof {
                assert(fresh.multi@ =~= Seq::new(length as nat, |p: int| false));
            }
            let flushed = self.flush();
            if flushed.is_ok() {
                self.current = Some(fresh);
            }
            flushed
        }
    }

    /// Takes one line of a GAF file into account (a trailing newline may
    /// stay on it).
    pub fn push_line(&mut self, line: &[u8]) -> (r: Result<LineOutcome, LineError>)
        requires
            old(self).wf(),
        ensures
            final(self).wf(),
            (final(self).view(), line_view(r)) == line_spec(old(self).view(), line@),
    {
        match parse_record(line) {
            Err(RecordError::Unparsable) => Ok(LineOutcome::Skipped),
            Err(e) => Err(LineError::Record(e)),
            Ok(rec) => {
                let AlignmentRecord { name, length, start, script } = rec;
                match self.push(name, length, start, &script) {
                    Ok(g) => Ok(LineOutcome::Pushed(g)),
                    Err(e) => Err(LineError::Coverage(e)),
                }
            },
        }
    }
}

} // verus!
