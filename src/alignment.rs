use vstd::prelude::*;

use crate::cursor::{all_directions, fits_forward, walk_forward, Cursor};
use crate::run::{expand_all, total_len, Run};
use crate::runs::{maximal_runs, runs};
use crate::step::Step;
use crate::step_mask::StepMask;
use crate::steps::{contiguous, steps, steps_of};

verus! {

/// One optimal alignment: the cell it starts from, its directions in order from
/// that cell onwards, and its score.
#[derive(Debug)]
pub struct Alignment {
    origin: Cursor,
    steps: Vec<StepMask>,
    score: i64,
}

impl Alignment {
    pub closed spec fn spec_origin(&self) -> Cursor {
        self.origin
    }

    pub closed spec fn spec_steps(&self) -> Seq<StepMask> {
        self.steps@
    }

    pub closed spec fn spec_score(&self) -> i64 {
        self.score
    }

    /// Every step is a single direction, and replaying them from the origin
    /// stays within `usize`.
    pub open spec fn wf(&self) -> bool {
        all_directions(self.spec_steps()) && fits_forward(self.spec_origin(), self.spec_steps())
    }

    /// The cell that replaying the steps from the origin reaches.
    pub open spec fn destination(&self) -> Cursor {
        walk_forward(self.spec_origin(), self.spec_steps())
    }

    pub fn new(origin: Cursor, steps: Vec<StepMask>, score: i64) -> (r: Alignment)
        requires
            all_directions(steps@),
            fits_forward(origin, steps@),
        ensures
            r.spec_origin() == origin,
            r.spec_steps() == steps@,
            r.spec_score() == score,
            r.wf(),
    {
        Alignment { origin, steps, score }
    }

    pub fn origin(&self) -> (r: &Cursor)
        ensures
            *r == self.spec_origin(),
    {
        &self.origin
    }

    pub fn score(&self) -> (r: i64)
        ensures
            r == self.spec_score(),
    {
        self.score
    }

    /// The number of steps.
    pub fn len(&self) -> (r: usize)
        ensures
            r == self.spec_steps().len(),
    {
        self.steps.len()
    }

    pub fn is_empty(&self) -> (r: bool)
        ensures
            r == (self.spec_steps().len() == 0),
    {
        self.steps.len() == 0
    }

    /// The directions of the alignment, from its origin onwards.
    pub fn masks(&self) -> (r: &Vec<StepMask>)
        ensures
            r@ == self.spec_steps(),
    {
        &self.steps
    }

    /// The edit operations, each with the positions it consumes.
    pub fn steps(&self) -> (r: Vec<Step>)
        requires
            self.wf(),
        ensures
            r@ == steps_of(self.spec_origin(), self.spec_steps()),
            contiguous(r@),
    {
        steps(self.origin, &self.steps)
    }

    /// The edit operations, with consecutive operations of one kind merged.
    pub fn runs(&self) -> (r: Vec<Run>)
        requires
            self.wf(),
        ensures
            expand_all(r@) == steps_of(self.spec_origin(), self.spec_steps()),
            total_len(r@) == self.spec_steps().len(),
            maximal_runs(r@),
    {
        let s = steps(self.origin, &self.steps);
        proof {
            crate::steps::lemma_steps_of_len(self.origin, self.steps@);
        }
        runs(&s)
    }
}

} // verus!
