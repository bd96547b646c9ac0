use vstd::prelude::*;

use crate::alignment_set::{max_steps, Strategy};
use crate::step_mask::StepMask;

verus! {

/// Similarity scoring for local alignment: a negative total counts as zero, so
/// that an alignment may start afresh anywhere.
#[derive(Clone, Copy, Debug)]
pub struct SmithWaterman {
    equal: isize,
    align: isize,
    insert: isize,
    delete: isize,
}

impl SmithWaterman {
    pub fn new(equal: isize, align: isize, insert: isize, delete: isize) -> (r: SmithWaterman)
        ensures
            r.spec_match_score() == equal,
            r.spec_mismatch_score() == align,
            r.spec_insert_score() == insert,
            r.spec_delete_score() == delete,
    {
        SmithWaterman { equal, align, insert, delete }
    }
}

impl Strategy for SmithWaterman {
    closed spec fn spec_match_score(&self) -> int {
        self.equal as int
    }

    closed spec fn spec_mismatch_score(&self) -> int {
        self.align as int
    }

    closed spec fn spec_insert_score(&self) -> int {
        self.insert as int
    }

    closed spec fn spec_delete_score(&self) -> int {
        self.delete as int
    }

    open spec fn spec_total_score(&self, score: int) -> int {
        if score >= 0 {
            score
        } else {
            0
        }
    }

    proof fn lemma_total_shrinks(&self, score: int) {
    }

    fn match_score(&self) -> (r: isize) {
        self.equal
    }

    fn mismatch_score(&self) -> (r: isize) {
        self.align
    }

    fn insert_score(&self) -> (r: isize) {
        self.insert
    }

    fn delete_score(&self) -> (r: isize) {
        self.delete
    }

    fn total_score(&self, score: isize) -> (r: isize) {
        if score >= 0 {
            score
        } else {
            0
        }
    }

    /// The directions with the highest score, or none at all where no score
    /// is above zero.
    fn step_mask(&self, align: isize, insert: isize, delete: isize) -> (r: StepMask)
        ensures
            r == if align > 0 || insert > 0 || delete > 0 {
                max_steps(align as int, delete as int, insert as int)
            } else {
                StepMask { align: false, delete: false, insert: false }
            },
    {
        if align > 0 || insert > 0 || delete > 0 {
            StepMask::from_scores(align, delete, insert)
        } else {
            StepMask::stop()
        }
    }
}

} // verus!
