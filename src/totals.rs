//! Running totals over every finished query sequence, and the ratios they give.

use vstd::prelude::*;

use crate::coverage::GroupStats;

verus! {

/// Sums of the counts of all finished query sequences.
#[derive(Clone, Copy, Debug, PartialEq, Eq, Structural)]
pub struct RunningTotals {
    pub total_seq_len: u64,
    pub total_aligned: u64,
    pub total_unique: u64,
    pub total_multi: u64,
    pub total_nonaligned: u64,
}

/// A fraction `numerator / denominator`, with a denominator that is not zero.
#[derive(Clone, Copy, Debug, PartialEq, Eq, Structural)]
pub struct Ratio {
    pub numerator: u64,
    pub denominator: u64,
}

/// The four coverage ratios of a run, each over the total sequence length.
#[derive(Clone, Copy, Debug, PartialEq, Eq, Structural)]
pub struct RatioReport {
    pub aligned: Ratio,
    pub unique: Ratio,
    pub multi: Ratio,
    pub nonaligned: Ratio,
}

impl RunningTotals {
    /// The relations that hold for every sequence hold for the sums.
    pub open spec fn wf(&self) -> bool {
        &&& self.total_aligned + self.total_nonaligned == self.total_seq_len
        &&& self.total_unique + self.total_multi == self.total_aligned
    }

    /// The totals after one more sequence with counts `g`.
    pub open spec fn add_spec(self, g: GroupStats) -> RunningTotals {
        RunningTotals {
            total_seq_len: (self.total_seq_len + g.sequence_length) as u64,
            total_aligned: (self.total_aligned + g.aligned_len) as u64,
            total_unique: (self.total_unique + g.unique_len) as u64,
            total_multi: (self.total_multi + g.multi_len) as u64,
            total_nonaligned: (self.total_nonaligned + g.nonaligned_len) as u64,
        }
    }

    /// Whether one more sequence with counts `g` can be added without overflow.
    pub open spec fn can_add(self, g: GroupStats) -> bool {
        self.total_seq_len + g.sequence_length <= u64::MAX
    }

    /// All totals zero.
    pub open spec fn zero() -> RunningTotals {
        RunningTotals {
            total_seq_len: 0,
            total_aligned: 0,
            total_unique: 0,
            total_multi: 0,
            total_nonaligned: 0,
        }
    }

    /// All totals zero.
    pub fn new() -> (r: RunningTotals)
        ensures
            r.wf(),
            r == RunningTotals::zero(),
    {
        RunningTotals {
            total_seq_len: 0,
            total_aligned: 0,
            total_unique: 0,
            total_multi: 0,
            total_nonaligned: 0,
        }
    }

    /// Folds the counts of one finished sequence into the totals. Returns
    /// `false`, and leaves the totals as they were, when the total length
    /// would not fit in 64 bits.
    pub fn add(&mut self, g: &GroupStats) -> (r: bool)
        requires
            old(self).wf(),
            g.wf(),
        ensures
            final(self).wf(),
            r == old(self).can_add(*g),
            r ==> *final(self) == old(self).add_spec(*g),
            !r ==> *final(self) == *old(self),
    {
        if g.sequence_length as u64 > u64::MAX - self.total_seq_len {
            return false;
        }
        self.total_seq_len = self.total_seq_len + g.sequence_length as u64;
        self.total_aligned = self.total_aligned + g.aligned_len as u64;
        self.total_unique = self.total_unique + g.unique_len as u64;
        self.total_multi = self.total_multi + g.multi_len as u64;
        self.total_nonaligned = self.total_nonaligned + g.nonaligned_len as u64;
        true
    }

    /// The ratios of covered, singly covered, multiply covered and uncovered
    /// length to the total length; `None`, the undefined result, when the
    /// total length is zero.
    pub fn report(&self) -> (r: Option<RatioReport>)
        requires
            self.wf(),
        ensures
            r is None <==> self.total_seq_len == 0,
            r matches Some(rep) ==> {
                &&& rep.aligned == Ratio {
                    numerator: self.total_aligned,
                    denominator: self.total_seq_len,
                }
                &&& rep.unique == Ratio {
                    numerator: self.total_unique,
                    denominator: self.total_seq_len,
                }
                &&& rep.multi == Ratio {
                    numerator: self.total_multi,
                    denominator: self.total_seq_len,
                }
                &&& rep.nonaligned == Ratio {
                    numerator: self.total_nonaligned,
                    denominator: self.total_seq_len,
                }
                &&& rep.aligned.numerator + rep.nonaligned.numerator == rep.aligned.denominator
                &&& rep.unique.numerator + rep.multi.numerator == rep.aligned.numerator
            },
    {
        if self.total_seq_len == 0 {
            return None;
        }
        let d = self.total_seq_len;
        Some(
            RatioReport {
                aligned: Ratio { numerator: self.total_aligned, denominator: d },
                unique: Ratio { numerator: self.total_unique, denominator: d },
                multi: Ratio { numerator: self.total_multi, denominator: d },
                nonaligned: Ratio { numerator: self.total_nonaligned, denominator: d },
            },
        )
    }
}

} // verus!
