use vstd::prelude::*;

use std::ops::RangeInclusive;

use crate::bounds::{hi, lo};
use crate::step_mask::StepMask;

verus! {

/// One cell of the alignment matrix: the best score that reaches it and every
/// direction that achieves that score.
#[derive(Clone, Copy, Debug, PartialEq, Eq, Structural)]
pub struct MatrixCell {
    pub score: i64,
    pub steps: StepMask,
}

pub open spec fn stop_mask() -> StepMask {
    StepMask { align: false, delete: false, insert: false }
}

/// `score` clamped into `lo..=hi`; a cell whose score had to be clamped, or
/// lies on a bound, is a stop cell.
pub open spec fn bounded(score: int, steps: StepMask, lo: int, hi: int) -> MatrixCell {
    if score <= lo {
        MatrixCell { score: lo as i64, steps: stop_mask() }
    } else if score >= hi {
        MatrixCell { score: hi as i64, steps: stop_mask() }
    } else {
        MatrixCell { score: score as i64, steps }
    }
}

pub open spec fn min3(a: int, b: int, c: int) -> int {
    if a <= b && a <= c {
        a
    } else if b <= c {
        b
    } else {
        c
    }
}

/// The directions whose candidate score is the smallest of the three.
pub open spec fn optimal_steps(align: int, delete: int, insert: int) -> StepMask {
    StepMask {
        align: align <= delete && align <= insert,
        delete: delete <= align && delete <= insert,
        insert: insert <= align && insert <= delete,
    }
}

/// The cell that the three candidate scores give: the least of them, with every
/// direction that reaches it, clamped into `lo..=hi`.
pub open spec fn best_cell(align: int, delete: int, insert: int, lo: int, hi: int) -> MatrixCell {
    bounded(min3(align, delete, insert), optimal_steps(align, delete, insert), lo, hi)
}

impl MatrixCell {
    /// A cell that holds `score` and `steps` as given, without clamping.
    pub fn new_unchecked(score: i64, steps: StepMask) -> (r: MatrixCell)
        ensures
            r.score == score,
            r.steps == steps,
    {
        MatrixCell { score, steps }
    }

    /// The cell for `score`, clamped into `bounds`.
    pub fn with_bounds(score: i128, steps: StepMask, bounds: &RangeInclusive<i64>) -> (r:
        MatrixCell)
        ensures
            r == bounded(score as int, steps, lo(*bounds), hi(*bounds)),
    {
        let start = *bounds.start();
        let end = *bounds.end();
        if score <= start as i128 {
            MatrixCell { score: start, steps: StepMask::stop() }
        } else if score >= end as i128 {
            MatrixCell { score: end, steps: StepMask::stop() }
        } else {
            MatrixCell { score: score as i64, steps }
        }
    }

    /// The cell for three candidate scores: the least one wins, and ties keep
    /// every direction that reaches it.
    pub fn from_steps(align: i128, delete: i128, insert: i128, bounds: &RangeInclusive<i64>) -> (r:
        MatrixCell)
        ensures
            r == best_cell(align as int, delete as int, insert as int, lo(*bounds), hi(*bounds)),
    {
        let mut steps = StepMask::empty();
        let mut score = align;
        if align <= delete && align <= insert {
            steps.union_with(StepMask::align());
            score = align;
        }
        if delete <= align && delete <= insert {
            steps.union_with(StepMask::delete());
            score = delete;
        }
        if insert <= align && insert <= delete {
            steps.union_with(StepMask::insert());
            score = insert;
        }
        MatrixCell::with_bounds(score, steps, bounds)
    }

    pub fn score(&self) -> (r: i64)
        ensures
            r == self.score,
    {
        self.score
    }

    pub fn steps(&self) -> (r: StepMask)
        ensures
            r == self.steps,
    {
        self.steps
    }
}

/// A clamped cell lies within its bounds.
pub proof fn lemma_bounded_within(score: int, steps: StepMask, lo: int, hi: int)
    requires
        lo <= hi,
        i64::MIN <= lo,
        hi <= i64::MAX,
    ensures
        lo <= bounded(score, steps, lo, hi).score <= hi,
{
}

} // verus!
