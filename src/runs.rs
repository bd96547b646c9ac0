use vstd::prelude::*;

use crate::run::{expand, expand_all, run_mask, run_wf, total_len, unit_run, Run};
use crate::step::{follows, spec_mask, step_fits, Step};
use crate::steps::contiguous;

verus! {

/// Each run is well formed, and no two neighbouring runs are of one kind.
pub open spec fn maximal_runs(runs: Seq<Run>) -> bool {
    &&& forall|i: int| 0 <= i < runs.len() ==> run_wf(#[trigger] runs[i])
    &&& forall|i: int|
        0 <= i < runs.len() - 1 ==> run_mask(#[trigger] runs[i]) != run_mask(runs[i + 1])
}

proof fn lemma_expand_all_push(runs: Seq<Run>, r: Run)
    ensures
        expand_all(runs.push(r)) == expand_all(runs) + expand(r),
        total_len(runs.push(r)) == total_len(runs) + crate::run::run_len(r),
{
    assert(runs.push(r).drop_last() =~= runs);
}

/// `step` lengthens `run` by one position at its end.
pub open spec fn extended(run: Run, step: Step) -> Run {
    match (run, step) {
        (Run::Align { x, y }, Step::Align { x: sx, y: sy }) => Run::Align {
            x: std::ops::Range { start: x.start, end: (sx + 1) as usize },
            y: std::ops::Range { start: y.start, end: (sy + 1) as usize },
        },
        (Run::Delete { x }, Step::Delete { x: sx }) => Run::Delete {
            x: std::ops::Range { start: x.start, end: (sx + 1) as usize },
        },
        (Run::Insert { y }, Step::Insert { y: sy }) => Run::Insert {
            y: std::ops::Range { start: y.start, end: (sy + 1) as usize },
        },
        _ => run,
    }
}

fn extend(run: Run, step: Step) -> (r: Run)
    requires
        step_fits(step),
    ensures
        r == extended(run, step),
{
    match (run, step) {
        (Run::Align { x, y }, Step::Align { x: sx, y: sy }) => Run::Align {
            x: x.start..(sx + 1),
            y: y.start..(sy + 1),
        },
        (Run::Delete { x }, Step::Delete { x: sx }) => Run::Delete { x: x.start..(sx + 1) },
        (Run::Insert { y }, Step::Insert { y: sy }) => Run::Insert { y: y.start..(sy + 1) },
        (run, _) => run,
    }
}

proof fn lemma_extend(run: Run, step: Step)
    requires
        run_wf(run),
        step_fits(step),
        spec_mask(step) == run_mask(run),
        follows(expand(run).last(), step),
    ensures
        run_wf(extended(run, step)),
        run_mask(extended(run, step)) == run_mask(run),
        expand(extended(run, step)) =~= expand(run).push(step),
        expand(extended(run, step)).last() == step,
{
}

proof fn lemma_unit(step: Step)
    requires
        step_fits(step),
    ensures
        run_wf(unit_run(step)),
        run_mask(unit_run(step)) == spec_mask(step),
        expand(unit_run(step)) =~= seq![step],
{
}

/// Merges consecutive steps of one kind into runs.
///
/// The runs stand for exactly the given steps, in order, and their lengths add
/// up to the number of steps.
pub fn runs(steps: &Vec<Step>) -> (r: Vec<Run>)
    requires
        contiguous(steps@),
    ensures
        expand_all(r@) == steps@,
        total_len(r@) == steps@.len(),
        maximal_runs(r@),
{
    let mut out: Vec<Run> = Vec::new();
    if steps.len() == 0 {
        proof {
            assert(expand_all(out@) =~= steps@);
        }
        return out;
    }
    let mut current = steps[0].to_run();
    proof {
        lemma_unit(steps@[0]);
        lemma_expand_all_push(out@, current);
        assert(expand_all(out@) =~= Seq::<Step>::empty());
        assert(steps@.take(1) =~= seq![steps@[0]]);
    }
    let mut i: usize = 1;
    while i < steps.len()
        invariant
            1 <= i <= steps.len(),
            contiguous(steps@),
            run_wf(current),
            maximal_runs(out@.push(current)),
            expand_all(out@.push(current)) == steps@.take(i as int),
            total_len(out@.push(current)) == i,
            expand(current).len() > 0,
            expand(current).last() == steps@[i - 1],
            run_mask(current) == spec_mask(steps@[i - 1]),
        decreases steps.len() - i,
    {
        let step = steps[i];
        assert(step_fits(steps@[i as int]));
        assert(follows(steps@[i - 1], steps@[i as int]));
        if step.mask() == current.mask() {
            proof {
                lemma_extend(current, step);
                lemma_expand_all_push(out@, current);
                lemma_expand_all_push(out@, extended(current, step));
                assert(steps@.take(i + 1) =~= steps@.take(i as int).push(step));
                let before = out@.push(current);
                let after = out@.push(extended(current, step));
                assert forall|k: int| 0 <= k < after.len() - 1 implies run_mask(
                    #[trigger] after[k],
                ) != run_mask(after[k + 1]) by {
                    assert(run_mask(before[k]) != run_mask(before[k + 1]));
                }
                assert forall|k: int| 0 <= k < after.len() implies run_wf(#[trigger] after[k]) by {
                    if k < after.len() - 1 {
                        assert(run_wf(before[k]));
                    }
                }
            }
            current = extend(current, step);
        } else {
            let next = step.to_run();
            proof {
                lemma_unit(step);
                lemma_expand_all_push(out@, current);
                lemma_expand_all_push(out@.push(current), next);
                assert(steps@.take(i + 1) =~= steps@.take(i as int).push(step));
                let before = out@.push(current);
                let after = out@.push(current).push(next);
                assert forall|k: int| 0 <= k < after.len() - 1 implies run_mask(
                    #[trigger] after[k],
                ) != run_mask(after[k + 1]) by {
                    if k < before.len() - 1 {
                        assert(run_mask(before[k]) != run_mask(before[k + 1]));
                    }
                }
                assert forall|k: int| 0 <= k < after.len() implies run_wf(#[trigger] after[k]) by {
                    if k < before.len() {
                        assert(run_wf(before[k]));
                    }
                }
            }
            out.push(current);
            current = next;
        }
        i = i + 1;
    }
    out.push(current);
    proof {
        assert(steps@.take(i as int) =~= steps@);
    }
    out
}

} // verus!
