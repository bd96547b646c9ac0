use vstd::prelude::*;

use crate::step::Step;
use crate::step_mask::StepMask;

verus! {

/// A maximal stretch of edit operations of one kind, as ranges of positions.
#[derive(Debug, PartialEq, Eq)]
pub enum Run {
    Align { x: std::ops::Range<usize>, y: std::ops::Range<usize> },
    Delete { x: std::ops::Range<usize> },
    Insert { y: std::ops::Range<usize> },
}

/// The number of steps that a run covers.
pub open spec fn run_len(r: Run) -> int {
    match r {
        Run::Align { x, .. } => x.end - x.start,
        Run::Delete { x } => x.end - x.start,
        Run::Insert { y } => y.end - y.start,
    }
}

/// The run covers at least one step, and an aligned run as many positions of
/// one sequence as of the other.
pub open spec fn run_wf(r: Run) -> bool {
    match r {
        Run::Align { x, y } => x.start < x.end && y.start < y.end && x.end - x.start == y.end
            - y.start,
        Run::Delete { x } => x.start < x.end,
        Run::Insert { y } => y.start < y.end,
    }
}

pub open spec fn run_mask(r: Run) -> StepMask {
    match r {
        Run::Align { .. } => StepMask { align: true, delete: false, insert: false },
        Run::Delete { .. } => StepMask { align: false, delete: true, insert: false },
        Run::Insert { .. } => StepMask { align: false, delete: false, insert: true },
    }
}

/// The steps that a run stands for, in order.
pub open spec fn expand(r: Run) -> Seq<Step> {
    match r {
        Run::Align { x, y } => Seq::new(
            (x.end - x.start) as nat,
            |i: int| Step::Align { x: (x.start + i) as usize, y: (y.start + i) as usize },
        ),
        Run::Delete { x } => Seq::new(
            (x.end - x.start) as nat,
            |i: int| Step::Delete { x: (x.start + i) as usize },
        ),
        Run::Insert { y } => Seq::new(
            (y.end - y.start) as nat,
            |i: int| Step::Insert { y: (y.start + i) as usize },
        ),
    }
}

/// The steps that a sequence of runs stands for, run after run.
pub open spec fn expand_all(runs: Seq<Run>) -> Seq<Step>
    decreases runs.len(),
{
    if runs.len() == 0 {
        Seq::empty()
    } else {
        expand_all(runs.drop_last()) + expand(runs.last())
    }
}

/// The sum of the lengths of `runs`.
pub open spec fn total_len(runs: Seq<Run>) -> int
    decreases runs.len(),
{
    if runs.len() == 0 {
        0
    } else {
        total_len(runs.drop_last()) + run_len(runs.last())
    }
}

/// The run that covers the single step `s`.
pub open spec fn unit_run(s: Step) -> Run {
    match s {
        Step::Align { x, y } => Run::Align {
            x: std::ops::Range { start: x, end: (x + 1) as usize },
            y: std::ops::Range { start: y, end: (y + 1) as usize },
        },
        Step::Delete { x } => Run::Delete { x: std::ops::Range { start: x, end: (x + 1) as usize } },
        Step::Insert { y } => Run::Insert { y: std::ops::Range { start: y, end: (y + 1) as usize } },
    }
}

impl Clone for Run {
    fn clone(&self) -> (r: Run)
        ensures
            r == *self,
    {
        match self {
            Run::Align { x, y } => Run::Align { x: x.start..x.end, y: y.start..y.end },
            Run::Delete { x } => Run::Delete { x: x.start..x.end },
            Run::Insert { y } => Run::Insert { y: y.start..y.end },
        }
    }
}

impl Run {
    pub fn mask(&self) -> (r: StepMask)
        ensures
            r == run_mask(*self),
    {
        match self {
            Run::Align { .. } => StepMask::align(),
            Run::Delete { .. } => StepMask::delete(),
            Run::Insert { .. } => StepMask::insert(),
        }
    }
}

/// The steps that a sequence of well-formed runs stands for are as many as the
/// sum of the runs' lengths.
pub proof fn lemma_expand_all_len(runs: Seq<Run>)
    requires
        forall|i: int| 0 <= i < runs.len() ==> run_wf(#[trigger] runs[i]),
    ensures
        expand_all(runs).len() == total_len(runs),
    decreases runs.len(),
{
    if runs.len() > 0 {
        lemma_expand_all_len(runs.drop_last());
        assert(run_wf(runs[runs.len() - 1]));
    }
}

} // verus!
