use vstd::prelude::*;

use crate::step_mask::StepMask;

verus! {

/// A position in the alignment matrix: `x` indexes the first sequence, `y` the second.
#[derive(Clone, Copy, Debug, PartialEq, Eq, Structural, Default)]
pub struct Cursor {
    pub x: usize,
    pub y: usize,
}

/// The cursor one step further along `d`.
pub open spec fn forward(c: Cursor, d: StepMask) -> Cursor {
    Cursor { x: (c.x + d.dx()) as usize, y: (c.y + d.dy()) as usize }
}

/// The cursor one step back against `d`.
pub open spec fn backward(c: Cursor, d: StepMask) -> Cursor {
    Cursor { x: (c.x - d.dx()) as usize, y: (c.y - d.dy()) as usize }
}

/// `d` can be taken forwards from `c` without leaving the range of `usize`.
pub open spec fn can_forward(c: Cursor, d: StepMask) -> bool {
    c.x + d.dx() <= usize::MAX && c.y + d.dy() <= usize::MAX
}

/// `d` can be taken backwards from `c` without leaving the matrix.
pub open spec fn can_backward(c: Cursor, d: StepMask) -> bool {
    c.x >= d.dx() && c.y >= d.dy()
}

/// The cursor reached by replaying `steps` forwards from `c`, first step first.
pub open spec fn walk_forward(c: Cursor, steps: Seq<StepMask>) -> Cursor
    decreases steps.len(),
{
    if steps.len() == 0 {
        c
    } else {
        forward(walk_forward(c, steps.drop_last()), steps.last())
    }
}

/// The cursor reached by undoing `steps` from `c`, first step first.
pub open spec fn walk_backward(c: Cursor, steps: Seq<StepMask>) -> Cursor
    decreases steps.len(),
{
    if steps.len() == 0 {
        c
    } else {
        backward(walk_backward(c, steps.drop_last()), steps.last())
    }
}

/// Total distance that `steps` cover along the first sequence.
pub open spec fn total_dx(steps: Seq<StepMask>) -> nat
    decreases steps.len(),
{
    if steps.len() == 0 {
        0
    } else {
        total_dx(steps.drop_last()) + steps.last().dx()
    }
}

/// Total distance that `steps` cover along the second sequence.
pub open spec fn total_dy(steps: Seq<StepMask>) -> nat
    decreases steps.len(),
{
    if steps.len() == 0 {
        0
    } else {
        total_dy(steps.drop_last()) + steps.last().dy()
    }
}

/// Every element of `steps` is a single direction.
pub open spec fn all_directions(steps: Seq<StepMask>) -> bool {
    forall|i: int| 0 <= i < steps.len() ==> #[trigger] steps[i].is_direction()
}

/// Replaying `steps` from `c` never leaves the range of `usize`.
pub open spec fn fits_forward(c: Cursor, steps: Seq<StepMask>) -> bool {
    c.x + total_dx(steps) <= usize::MAX && c.y + total_dy(steps) <= usize::MAX
}

pub proof fn lemma_walk_forward_offsets(c: Cursor, steps: Seq<StepMask>)
    requires
        fits_forward(c, steps),
    ensures
        walk_forward(c, steps).x == c.x + total_dx(steps),
        walk_forward(c, steps).y == c.y + total_dy(steps),
    decreases steps.len(),
{
    if steps.len() > 0 {
        lemma_walk_forward_offsets(c, steps.drop_last());
    }
}

/// Replaying a step that stands in front of `steps` is the same as replaying
/// `steps` from the cursor after it.
pub proof fn lemma_walk_forward_front(c: Cursor, d: StepMask, steps: Seq<StepMask>)
    ensures
        walk_forward(c, seq![d] + steps) == walk_forward(forward(c, d), steps),
    decreases steps.len(),
{
    if steps.len() == 0 {
        assert((seq![d] + steps).drop_last() =~= Seq::<StepMask>::empty());
        assert((seq![d] + steps).last() == d);
        assert(walk_forward(c, Seq::<StepMask>::empty()) == c);
    } else {
        assert((seq![d] + steps).drop_last() =~= seq![d] + steps.drop_last());
        assert((seq![d] + steps).last() == steps.last());
        lemma_walk_forward_front(c, d, steps.drop_last());
    }
}

impl Cursor {
    pub fn new(x: usize, y: usize) -> (r: Cursor)
        ensures
            r.x == x,
            r.y == y,
    {
        Cursor { x, y }
    }

    /// The cursor after taking `step`; `None` for the stop marker.
    pub fn forwards_step(&self, step: StepMask) -> (r: Option<Cursor>)
        requires
            step.is_stop() || step.is_direction(),
            can_forward(*self, step),
        ensures
            step.is_stop() ==> r is None,
            step.is_direction() ==> r == Some(forward(*self, step)),
    {
        self.step(step, true)
    }

    /// The cursor before taking `step`; `None` for the stop marker.
    pub fn backwards_step(&self, step: StepMask) -> (r: Option<Cursor>)
        requires
            step.is_stop() || step.is_direction(),
            can_backward(*self, step),
        ensures
            step.is_stop() ==> r is None,
            step.is_direction() ==> r == Some(backward(*self, step)),
    {
        self.step(step, false)
    }

    fn step(&self, step: StepMask, forwards: bool) -> (r: Option<Cursor>)
        requires
            step.is_stop() || step.is_direction(),
            forwards ==> can_forward(*self, step),
            !forwards ==> can_backward(*self, step),
        ensures
            step.is_stop() ==> r is None,
            step.is_direction() && forwards ==> r == Some(forward(*self, step)),
            step.is_direction() && !forwards ==> r == Some(backward(*self, step)),
    {
        let (dx, dy): (usize, usize) = if step.align {
            (1, 1)
        } else if step.insert {
            (0, 1)
        } else if step.delete {
            (1, 0)
        } else {
            return None;
        };
        if forwards {
            Some(Cursor { x: self.x + dx, y: self.y + dy })
        } else {
            Some(Cursor { x: self.x - dx, y: self.y - dy })
        }
    }
}

/// Stepping back against a direction and then forwards along it returns to
/// the cursor one started from.
pub proof fn lemma_step_round_trip(c: Cursor, d: StepMask)
    requires
        d.is_direction(),
        can_backward(c, d),
    ensures
        can_forward(backward(c, d), d),
        forward(backward(c, d), d) == c,
{
}

/// Every step of `steps`, undone in turn from `c`, is a single direction that
/// stays inside the matrix.
pub open spec fn can_walk_backward(c: Cursor, steps: Seq<StepMask>) -> bool
    decreases steps.len(),
{
    if steps.len() == 0 {
        true
    } else {
        can_walk_backward(c, steps.drop_last()) && steps.last().is_direction() && can_backward(
            walk_backward(c, steps.drop_last()),
            steps.last(),
        )
    }
}

/// A path recorded backwards, from the cell where a backtrace started, leads
/// forwards again, replayed in reverse order, to that very cell.
pub proof fn lemma_replay_reaches(terminal: Cursor, steps: Seq<StepMask>)
    requires
        can_walk_backward(terminal, steps),
    ensures
        walk_forward(walk_backward(terminal, steps), steps.reverse()) == terminal,
    decreases steps.len(),
{
    if steps.len() > 0 {
        let rest = steps.drop_last();
        let d = steps.last();
        lemma_replay_reaches(terminal, rest);
        assert(steps.reverse() =~= seq![d] + rest.reverse());
        lemma_walk_forward_front(walk_backward(terminal, steps), d, rest.reverse());
    }
}

} // verus!
