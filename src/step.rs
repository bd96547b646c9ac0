use vstd::prelude::*;

use crate::cursor::Cursor;
use crate::run::Run;
use crate::step_mask::StepMask;

verus! {

/// One edit operation of an alignment, annotated with the positions it consumes.
#[derive(Clone, Copy, Debug, PartialEq, Eq, Structural)]
pub enum Step {
    /// `x[x]` is aligned with `y[y]` (a match or a substitution).
    Align { x: usize, y: usize },
    /// `x[x]` is consumed with no counterpart in the second sequence.
    Delete { x: usize },
    /// `y[y]` is consumed with no counterpart in the first sequence.
    Insert { y: usize },
}

/// The step that direction `d` takes from cursor `c`.
pub open spec fn step_at(c: Cursor, d: StepMask) -> Step {
    if d.align {
        Step::Align { x: c.x, y: c.y }
    } else if d.delete {
        Step::Delete { x: c.x }
    } else {
        Step::Insert { y: c.y }
    }
}

pub open spec fn spec_mask(s: Step) -> StepMask {
    match s {
        Step::Align { .. } => StepMask { align: true, delete: false, insert: false },
        Step::Delete { .. } => StepMask { align: false, delete: true, insert: false },
        Step::Insert { .. } => StepMask { align: false, delete: false, insert: true },
    }
}

/// The step leaves room for the position after it in `usize`.
pub open spec fn step_fits(s: Step) -> bool {
    match s {
        Step::Align { x, y } => x < usize::MAX && y < usize::MAX,
        Step::Delete { x } => x < usize::MAX,
        Step::Insert { y } => y < usize::MAX,
    }
}

/// `b` is the step that directly follows `a` when both are of the same kind.
pub open spec fn follows(a: Step, b: Step) -> bool {
    match (a, b) {
        (Step::Align { x: ax, y: ay }, Step::Align { x: bx, y: by }) => bx == ax + 1 && by == ay
            + 1,
        (Step::Delete { x: ax }, Step::Delete { x: bx }) => bx == ax + 1,
        (Step::Insert { y: ay }, Step::Insert { y: by }) => by == ay + 1,
        _ => true,
    }
}

pub open spec fn same_kind(a: Step, b: Step) -> bool {
    spec_mask(a) == spec_mask(b)
}

impl Step {
    pub fn mask(&self) -> (r: StepMask)
        ensures
            r == spec_mask(*self),
    {
        match *self {
            Step::Align { .. } => StepMask::align(),
            Step::Delete { .. } => StepMask::delete(),
            Step::Insert { .. } => StepMask::insert(),
        }
    }

    /// The run that covers this step alone.
    pub fn to_run(&self) -> (r: Run)
        requires
            step_fits(*self),
        ensures
            r == crate::run::unit_run(*self),
    {
        match *self {
            Step::Align { x, y } => Run::Align { x: x..(x + 1), y: y..(y + 1) },
            Step::Delete { x } => Run::Delete { x: x..(x + 1) },
            Step::Insert { y } => Run::Insert { y: y..(y + 1) },
        }
    }
}

} // verus!
