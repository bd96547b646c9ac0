use vstd::prelude::*;

use crate::alignment_set::{max_steps, Strategy};
use crate::step_mask::StepMask;

verus! {

/// Similarity scoring for global alignment: scores are summed as they are.
#[derive(Clone, Copy, Debug)]
pub struct NeedlemanWunsch {
    pub equal: isize,
    pub align: isize,
    pub insert: isize,
    pub delete: isize,
}

impl NeedlemanWunsch {
    pub fn new(equal: isize, align: isize, insert: isize, delete: isize) -> (r: NeedlemanWunsch)
        ensures
            r.equal == equal,
            r.align == align,
            r.insert == insert,
            r.delete == delete,
    {
        NeedlemanWunsch { equal, align, insert, delete }
    }
}

impl Strategy for NeedlemanWunsch {
    open spec fn spec_match_score(&self) -> int {
        self.equal as int
    }

    open spec fn spec_mismatch_score(&self) -> int {
        self.align as int
    }

    open spec fn spec_insert_score(&self) -> int {
        self.insert as int
    }

    open spec fn spec_delete_score(&self) -> int {
        self.delete as int
    }

    open spec fn spec_total_score(&self, score: int) -> int {
        score
    }

    proof fn lemma_total_shrinks(&self, score: int) {
    }

    fn match_score(&self) -> (r: isize) {
        self.equal
    }

    fn mismatch_score(&self) -> (r: isize) {
        self.align
    }

    fn insert_score(&self) -> (r: isize) {
        self.insert
    }

    fn delete_score(&self) -> (r: isize) {
        self.delete
    }

    fn total_score(&self, score: isize) -> (r: isize) {
        score
    }

    /// The directions with the highest score.
    fn step_mask(&self, align: isize, insert: isize, delete: isize) -> (r: StepMask)
        ensures
            r == max_steps(align as int, delete as int, insert as int),
    {
        StepMask::from_scores(align, delete, insert)
    }
}

} // verus!
