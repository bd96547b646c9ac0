use vstd::prelude::*;

use crate::cursor::{
    all_directions, fits_forward, lemma_walk_forward_offsets, total_dx, total_dy,
    walk_forward, Cursor,
};
use crate::step::{follows, step_at, step_fits, Step};
use crate::step_mask::StepMask;

verus! {

/// The position-annotated steps met when replaying `masks` forwards from `c`.
pub open spec fn steps_of(c: Cursor, masks: Seq<StepMask>) -> Seq<Step>
    decreases masks.len(),
{
    if masks.len() == 0 {
        Seq::empty()
    } else {
        steps_of(c, masks.drop_last()).push(step_at(walk_forward(c, masks.drop_last()), masks.last()))
    }
}

/// Consecutive steps of one kind stand side by side, and each leaves room for
/// the position after it.
pub open spec fn contiguous(steps: Seq<Step>) -> bool {
    &&& forall|i: int| 0 <= i < steps.len() ==> step_fits(#[trigger] steps[i])
    &&& forall|i: int| 0 <= i < steps.len() - 1 ==> follows(#[trigger] steps[i], steps[i + 1])
}

pub proof fn lemma_steps_of_index(c: Cursor, masks: Seq<StepMask>, i: int)
    requires
        0 <= i < masks.len(),
    ensures
        steps_of(c, masks).len() == masks.len(),
        steps_of(c, masks)[i] == step_at(walk_forward(c, masks.take(i)), masks[i]),
    decreases masks.len(),
{
    lemma_steps_of_len(c, masks);
    if i < masks.len() - 1 {
        lemma_steps_of_index(c, masks.drop_last(), i);
        assert(masks.drop_last().take(i) =~= masks.take(i));
    } else {
        assert(masks.drop_last() =~= masks.take(i));
    }
}

pub proof fn lemma_steps_of_len(c: Cursor, masks: Seq<StepMask>)
    ensures
        steps_of(c, masks).len() == masks.len(),
    decreases masks.len(),
{
    if masks.len() > 0 {
        lemma_steps_of_len(c, masks.drop_last());
    }
}

proof fn lemma_total_prefix(masks: Seq<StepMask>, i: int)
    requires
        0 <= i <= masks.len(),
    ensures
        total_dx(masks.take(i)) <= total_dx(masks),
        total_dy(masks.take(i)) <= total_dy(masks),
        i < masks.len() ==> total_dx(masks.take(i)) + masks[i].dx() <= total_dx(masks),
        i < masks.len() ==> total_dy(masks.take(i)) + masks[i].dy() <= total_dy(masks),
    decreases masks.len(),
{
    if i < masks.len() {
        let rest = masks.drop_last();
        if i < rest.len() {
            lemma_total_prefix(rest, i);
            assert(rest.take(i) =~= masks.take(i));
        } else {
            assert(rest =~= masks.take(i));
        }
    } else {
        assert(masks.take(i) =~= masks);
    }
}

/// The steps of a replay that stays within `usize` are contiguous.
pub proof fn lemma_steps_of_contiguous(c: Cursor, masks: Seq<StepMask>)
    requires
        all_directions(masks),
        fits_forward(c, masks),
    ensures
        contiguous(steps_of(c, masks)),
{
    let s = steps_of(c, masks);
    lemma_steps_of_len(c, masks);
    assert forall|i: int| 0 <= i < s.len() implies step_fits(#[trigger] s[i]) by {
        lemma_steps_of_index(c, masks, i);
        lemma_total_prefix(masks, i);
        lemma_walk_forward_offsets(c, masks.take(i));
        assert(masks[i].is_direction());
    }
    assert forall|i: int| 0 <= i < s.len() - 1 implies follows(#[trigger] s[i], s[i + 1]) by {
        lemma_steps_of_index(c, masks, i);
        lemma_steps_of_index(c, masks, i + 1);
        lemma_total_prefix(masks, i);
        lemma_total_prefix(masks, i + 1);
        lemma_walk_forward_offsets(c, masks.take(i));
        lemma_walk_forward_offsets(c, masks.take(i + 1));
        assert(masks.take(i + 1).drop_last() =~= masks.take(i));
        assert(masks[i].is_direction());
        assert(masks[i + 1].is_direction());
    }
}

/// Replays `masks` forwards from `origin` and lists the position-annotated
/// step that each direction takes.
pub fn steps(origin: Cursor, masks: &Vec<StepMask>) -> (r: Vec<Step>)
    requires
        all_directions(masks@),
        fits_forward(origin, masks@),
    ensures
        r@ == steps_of(origin, masks@),
        contiguous(r@),
{
    let mut out: Vec<Step> = Vec::new();
    let mut cursor = origin;
    let mut i: usize = 0;
    while i < masks.len()
        invariant
            0 <= i <= masks.len(),
            all_directions(masks@),
            fits_forward(origin, masks@),
            cursor == walk_forward(origin, masks@.take(i as int)),
            out@ == steps_of(origin, masks@.take(i as int)),
        decreases masks.len() - i,
    {
        let mask = masks[i];
        proof {
            lemma_total_prefix(masks@, i as int);
            lemma_walk_forward_offsets(origin, masks@.take(i as int));
            assert(masks@[i as int].is_direction());
        }
        let step = if mask.align {
            Step::Align { x: cursor.x, y: cursor.y }
        } else if mask.delete {
            Step::Delete { x: cursor.x }
        } else {
            Step::Insert { y: cursor.y }
        };
        out.push(step);
        cursor = Cursor {
            x: cursor.x + if mask.align || mask.delete { 1 } else { 0 },
            y: cursor.y + if mask.align || mask.insert { 1 } else { 0 },
        };
        proof {
            assert(masks@.take(i + 1).drop_last() =~= masks@.take(i as int));
        }
        i = i + 1;
    }
    proof {
        assert(masks@.take(i as int) =~= masks@);
        lemma_steps_of_contiguous(origin, masks@);
    }
    out
}

} // verus!
