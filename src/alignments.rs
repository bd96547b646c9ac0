use vstd::prelude::*;

use crate::alignment::Alignment;
use crate::cell::MatrixCell;
use crate::cursor::{
    all_directions, backward, can_backward, can_walk_backward, fits_forward, lemma_replay_reaches,
    total_dx, total_dy, walk_backward, walk_forward, Cursor,
};
use crate::matrix::{has_shape, AlignmentMatrix};
use crate::step_mask::StepMask;

verus! {

pub open spec fn cell_of(g: Seq<Seq<MatrixCell>>, c: Cursor) -> MatrixCell {
    g[c.y as int][c.x as int]
}

/// Each direction of every cell leads back to a cell of the matrix.
pub open spec fn directions_wf(g: Seq<Seq<MatrixCell>>, width: nat, height: nat) -> bool {
    forall|y: int, x: int|
        0 <= y < height && 0 <= x < width ==> {
            let s = (#[trigger] g[y][x]).steps;
            &&& s.align ==> x >= 1 && y >= 1
            &&& s.delete ==> x >= 1
            &&& s.insert ==> y >= 1
        }
}

/// `steps`, undone in turn from `t`, each follow a direction that the cell they
/// leave records as optimal.
pub open spec fn traced(g: Seq<Seq<MatrixCell>>, t: Cursor, steps: Seq<StepMask>) -> bool
    decreases steps.len(),
{
    if steps.len() == 0 {
        true
    } else {
        let c = walk_backward(t, steps.drop_last());
        &&& traced(g, t, steps.drop_last())
        &&& steps.last().is_direction()
        &&& cell_of(g, c).steps.spec_contains(steps.last())
        &&& can_backward(c, steps.last())
    }
}

/// The direction a backtrace tries first: delete, then insert, then align.
pub open spec fn preferred(m: StepMask) -> StepMask {
    if m.delete {
        StepMask { align: false, delete: true, insert: false }
    } else if m.insert {
        StepMask { align: false, delete: false, insert: true }
    } else {
        StepMask { align: true, delete: false, insert: false }
    }
}

/// The path that a depth-first backtrace from `c` completes first, recorded
/// backwards: at each cell it follows the preferred direction, until it meets a
/// stop cell.
pub open spec fn first_path(g: Seq<Seq<MatrixCell>>, c: Cursor) -> Seq<StepMask>
    decreases c.x + c.y,
{
    let s = cell_of(g, c).steps;
    let d = preferred(s);
    if s.is_stop() || !can_backward(c, d) {
        Seq::empty()
    } else {
        seq![d] + first_path(g, backward(c, d))
    }
}

pub proof fn lemma_traced_walks(g: Seq<Seq<MatrixCell>>, t: Cursor, steps: Seq<StepMask>)
    requires
        traced(g, t, steps),
    ensures
        can_walk_backward(t, steps),
        all_directions(steps),
        walk_backward(t, steps).x + total_dx(steps) == t.x,
        walk_backward(t, steps).y + total_dy(steps) == t.y,
        walk_backward(t, steps).x + walk_backward(t, steps).y + steps.len() <= t.x + t.y,
    decreases steps.len(),
{
    if steps.len() > 0 {
        lemma_traced_walks(g, t, steps.drop_last());
        let rest = steps.drop_last();
        assert forall|i: int| 0 <= i < steps.len() implies #[trigger] steps[i].is_direction() by {
            if i < rest.len() {
                assert(rest[i] == steps[i]);
            }
        }
    }
}

proof fn lemma_total_concat(a: Seq<StepMask>, b: Seq<StepMask>)
    ensures
        total_dx(a + b) == total_dx(a) + total_dx(b),
        total_dy(a + b) == total_dy(a) + total_dy(b),
    decreases b.len(),
{
    if b.len() == 0 {
        assert(a + b =~= a);
    } else {
        lemma_total_concat(a, b.drop_last());
        assert((a + b).drop_last() =~= a + b.drop_last());
    }
}

proof fn lemma_total_reverse(s: Seq<StepMask>)
    ensures
        total_dx(s.reverse()) == total_dx(s),
        total_dy(s.reverse()) == total_dy(s),
    decreases s.len(),
{
    if s.len() > 0 {
        let rest = s.drop_last();
        lemma_total_reverse(rest);
        assert(s.reverse() =~= seq![s.last()] + rest.reverse());
        lemma_total_concat(seq![s.last()], rest.reverse());
        let one = seq![s.last()];
        assert(one.drop_last() =~= Seq::<StepMask>::empty());
        assert(one.last() == s.last());
        assert(total_dx(Seq::<StepMask>::empty()) == 0);
        assert(total_dy(Seq::<StepMask>::empty()) == 0);
        assert(total_dx(one) == s.last().dx());
        assert(total_dy(one) == s.last().dy());
    } else {
        assert(s.reverse() =~= s);
    }
}

/// A path traced back from `t` and then reversed is a well-formed alignment
/// that leads from where the trace ended to `t`.
pub proof fn lemma_trace_is_alignment(g: Seq<Seq<MatrixCell>>, t: Cursor, steps: Seq<StepMask>)
    requires
        traced(g, t, steps),
    ensures
        all_directions(steps.reverse()),
        fits_forward(walk_backward(t, steps), steps.reverse()),
        walk_forward(walk_backward(t, steps), steps.reverse()) == t,
{
    lemma_traced_walks(g, t, steps);
    lemma_total_reverse(steps);
    lemma_replay_reaches(t, steps);
    assert forall|i: int| 0 <= i < steps.len() implies #[trigger] steps.reverse()[i].is_direction() by {
        assert(steps[steps.len() - 1 - i].is_direction());
    }
}

/// The result of a forward pass: the filled matrix and the cell where
/// backtracking starts.
pub struct Alignments<M> {
    matrix: M,
    cursor: Cursor,
}

impl<M: AlignmentMatrix> Alignments<M> {
    pub closed spec fn spec_matrix(&self) -> M {
        self.matrix
    }

    pub closed spec fn spec_cursor(&self) -> Cursor {
        self.cursor
    }

    pub open spec fn wf(&self) -> bool {
        let m = self.spec_matrix();
        &&& m.wf()
        &&& self.spec_cursor().x < m.spec_width()
        &&& self.spec_cursor().y < m.spec_height()
        &&& directions_wf(m.grid(), m.spec_width(), m.spec_height())
    }

    pub fn new(matrix: M, cursor: Cursor) -> (r: Alignments<M>)
        requires
            matrix.wf(),
            cursor.x < matrix.spec_width(),
            cursor.y < matrix.spec_height(),
            directions_wf(matrix.grid(), matrix.spec_width(), matrix.spec_height()),
        ensures
            r.spec_matrix() == matrix,
            r.spec_cursor() == cursor,
            r.wf(),
    {
        Alignments { matrix, cursor }
    }

    pub fn matrix(&self) -> (r: &M)
        ensures
            *r == self.spec_matrix(),
    {
        &self.matrix
    }

    /// The cell where backtracking starts.
    pub fn cursor(&self) -> (r: Cursor)
        ensures
            r == self.spec_cursor(),
    {
        self.cursor
    }

    /// The score of the cell where backtracking starts.
    pub fn score(&self) -> (r: i64)
        requires
            self.wf(),
        ensures
            r == cell_of(self.spec_matrix().grid(), self.spec_cursor()).score,
    {
        self.matrix.cell(&self.cursor).score
    }

    /// A lazy backtrace over every optimal alignment.
    pub fn iter(&self) -> (r: Iter<'_, M>)
        requires
            self.wf(),
        ensures
            r.wf(),
            r.spec_matrix() == self.spec_matrix(),
            r.spec_terminal() == self.spec_cursor(),
            r.spec_score() == cell_of(self.spec_matrix().grid(), self.spec_cursor()).score,
            r.remaining() == all_paths(self.spec_matrix().grid(), self.spec_cursor()),
    {
        proof {
            self.matrix.lemma_wf();
        }
        let score = self.matrix.cell(&self.cursor).score;
        Iter::new(&self.matrix, self.cursor, score)
    }

    /// The alignment that a depth-first backtrace completes first, or `None`
    /// when the start cell is itself a stop cell.
    pub fn alignment(&self) -> (r: Option<Alignment>)
        requires
            self.wf(),
        ensures
            first_alignment_spec(self.spec_matrix().grid(), self.spec_cursor(), cell_of(self.spec_matrix().grid(), self.spec_cursor()).score, r),
            r is None <==> all_paths(self.spec_matrix().grid(), self.spec_cursor()).len() == 0,
            r matches Some(a) ==> a.spec_steps().reverse() == all_paths(self.spec_matrix().grid(), self.spec_cursor())[0],
    {
        proof {
            self.matrix.lemma_wf();
            lemma_first_yield_is_first_path(self.matrix.grid(), self.matrix.spec_width(), self.matrix.spec_height(), self.cursor);
        }
        let score = self.matrix.cell(&self.cursor).score;
        let r = first_alignment(&self.matrix, self.cursor, score);
        proof {
            if r is Some {
                let a = r->Some_0;
                let path = first_path(self.matrix.grid(), self.cursor);
                assert(a.spec_steps().reverse() =~= path.reverse().reverse());
                assert(path.reverse().reverse() =~= path);
            }
        }
        r
    }

    /// The cells of row `y`, from column 0 onwards.
    pub fn row(&self, y: usize) -> (r: Vec<MatrixCell>)
        requires
            self.wf(),
            y < self.spec_matrix().spec_height(),
        ensures
            r@ == self.spec_matrix().grid()[y as int],
    {
        crate::matrix::row(&self.matrix, y)
    }
}

/// `r` is the alignment that a depth-first backtrace from `t` completes
/// first, carrying `score`, or `None` when `t` is itself a stop cell.
pub open spec fn first_alignment_spec(g: Seq<Seq<MatrixCell>>, t: Cursor, score: i64, r: Option<Alignment>) -> bool {
    let path = first_path(g, t);
    match r {
        None => path.len() == 0,
        Some(a) => {
            &&& path.len() > 0
            &&& a.wf()
            &&& a.spec_steps() == path.reverse()
            &&& a.spec_origin() == walk_backward(t, path)
            &&& a.destination() == t
            &&& a.spec_score() == score
            &&& traced(g, t, path)
            &&& cell_of(g, a.spec_origin()).steps.is_stop()
        },
    }
}

/// Follows the preferred direction back from `cursor` until a stop cell.
pub fn first_alignment<M: AlignmentMatrix>(matrix: &M, cursor: Cursor, score: i64) -> (r: Option<Alignment>)
    requires
        matrix.wf(),
        cursor.x < matrix.spec_width(),
        cursor.y < matrix.spec_height(),
        directions_wf(matrix.grid(), matrix.spec_width(), matrix.spec_height()),
    ensures
        first_alignment_spec(matrix.grid(), cursor, score, r),
{
    proof {
        matrix.lemma_wf();
    }
    let ghost g = matrix.grid();
    let ghost t = cursor;
    let mut cursor = cursor;
    let mut path: Vec<StepMask> = Vec::new();
    let mut cell = matrix.cell(&cursor);
    while !cell.steps.is_empty()
        invariant
            matrix.wf(),
            directions_wf(g, matrix.spec_width(), matrix.spec_height()),
            g == matrix.grid(),
            has_shape(g, matrix.spec_width(), matrix.spec_height()),
            cursor.x < matrix.spec_width(),
            cursor.y < matrix.spec_height(),
            cell == cell_of(g, cursor),
            traced(g, t, path@),
            cursor == walk_backward(t, path@),
            path@ + first_path(g, cursor) == first_path(g, t),
        decreases cursor.x + cursor.y,
    {
        let d = if cell.steps.delete {
            StepMask::delete()
        } else if cell.steps.insert {
            StepMask::insert()
        } else {
            StepMask::align()
        };
        assert(d == preferred(cell.steps));
        assert(can_backward(cursor, d));
        let ghost before = path@;
        path.push(d);
        let next = Cursor {
            x: cursor.x - if d.align || d.delete { 1 } else { 0 },
            y: cursor.y - if d.align || d.insert { 1 } else { 0 },
        };
        proof {
            assert(path@.drop_last() =~= before);
            assert(first_path(g, cursor) == seq![d] + first_path(g, next));
            assert(path@ + first_path(g, next) =~= before + first_path(g, cursor));
        }
        cursor = next;
        cell = matrix.cell(&cursor);
    }
    proof {
        assert(first_path(g, cursor) =~= Seq::<StepMask>::empty());
        assert(path@ + first_path(g, cursor) =~= path@);
    }
    if path.len() == 0 {
        return None;
    }
    let steps = reversed(&path);
    proof {
        lemma_trace_is_alignment(g, t, path@);
    }
    Some(Alignment::new(cursor, steps, score))
}

/// Each path of `ps` with `prefix` in front of it.
pub open spec fn prefixed(prefix: Seq<StepMask>, ps: Seq<Seq<StepMask>>) -> Seq<Seq<StepMask>> {
    Seq::new(ps.len(), |i: int| prefix + ps[i])
}

/// Every path from `c` back to a stop cell that follows only recorded
/// directions, each recorded backwards, in the order a depth-first backtrace
/// completes them: the paths through a deletion first, then those through an
/// insertion, then those through an alignment. At a stop cell there is one
/// path, the empty one.
pub open spec fn paths_from(g: Seq<Seq<MatrixCell>>, c: Cursor) -> Seq<Seq<StepMask>>
    decreases c.x + c.y,
{
    let s = cell_of(g, c).steps;
    let del = StepMask { align: false, delete: true, insert: false };
    let ins = StepMask { align: false, delete: false, insert: true };
    let ali = StepMask { align: true, delete: false, insert: false };
    if s.is_stop() {
        seq![Seq::empty()]
    } else {
        let pd = if s.delete && can_backward(c, del) {
            prefixed(seq![del], paths_from(g, backward(c, del)))
        } else {
            Seq::empty()
        };
        let pi = if s.insert && can_backward(c, ins) {
            prefixed(seq![ins], paths_from(g, backward(c, ins)))
        } else {
            Seq::empty()
        };
        let pa = if s.align && can_backward(c, ali) {
            prefixed(seq![ali], paths_from(g, backward(c, ali)))
        } else {
            Seq::empty()
        };
        pd + pi + pa
    }
}

/// Every optimal alignment from `t`, each recorded backwards, in the order a
/// backtrace yields them; none when `t` is itself a stop cell.
pub open spec fn all_paths(g: Seq<Seq<MatrixCell>>, t: Cursor) -> Seq<Seq<StepMask>> {
    if cell_of(g, t).steps.is_stop() {
        Seq::empty()
    } else {
        paths_from(g, t)
    }
}

proof fn lemma_prefixed_concat(p: Seq<StepMask>, a: Seq<Seq<StepMask>>, b: Seq<Seq<StepMask>>)
    ensures
        prefixed(p, a + b) =~= prefixed(p, a) + prefixed(p, b),
{
}

proof fn lemma_prefixed_twice(p: Seq<StepMask>, d: StepMask, ps: Seq<Seq<StepMask>>)
    ensures
        prefixed(p, prefixed(seq![d], ps)) =~= prefixed(p.push(d), ps),
{
    assert forall|i: int| 0 <= i < ps.len() implies p + (seq![d] + ps[i]) =~= p.push(d) + ps[i] by {
    }
}

proof fn lemma_prefixed_empty(ps: Seq<Seq<StepMask>>)
    ensures
        prefixed(Seq::empty(), ps) =~= ps,
{
    assert forall|i: int| 0 <= i < ps.len() implies Seq::<StepMask>::empty() + ps[i] =~= ps[i] by {
    }
}

/// What a stack entry still has to yield: every completion of the path that
/// leads to its cell. The start cell yields nothing when it is a stop cell.
pub open spec fn contribution(
    g: Seq<Seq<MatrixCell>>,
    t: Cursor,
    steps: Seq<StepMask>,
    e: (StepMask, Cursor, usize),
) -> Seq<Seq<StepMask>> {
    if e.2 == 0 {
        all_paths(g, t)
    } else {
        prefixed(steps.take(e.2 - 1).push(e.0), paths_from(g, e.1))
    }
}

/// What a stack still has to yield, from the top entry down.
pub open spec fn contributions(
    g: Seq<Seq<MatrixCell>>,
    t: Cursor,
    steps: Seq<StepMask>,
    stack: Seq<(StepMask, Cursor, usize)>,
) -> Seq<Seq<StepMask>>
    decreases stack.len(),
{
    if stack.len() == 0 {
        Seq::empty()
    } else {
        contribution(g, t, steps, stack.last()) + contributions(g, t, steps, stack.drop_last())
    }
}

proof fn lemma_contributions_push(
    g: Seq<Seq<MatrixCell>>,
    t: Cursor,
    steps: Seq<StepMask>,
    stack: Seq<(StepMask, Cursor, usize)>,
    e: (StepMask, Cursor, usize),
)
    ensures
        contributions(g, t, steps, stack.push(e)) == contribution(g, t, steps, e) + contributions(
            g,
            t,
            steps,
            stack,
        ),
{
    assert(stack.push(e).drop_last() =~= stack);
}

/// Entries that reach no deeper than a common prefix of two steps buffers
/// have the same contributions under either.
proof fn lemma_contributions_steps(
    g: Seq<Seq<MatrixCell>>,
    t: Cursor,
    s0: Seq<StepMask>,
    s1: Seq<StepMask>,
    stack: Seq<(StepMask, Cursor, usize)>,
)
    requires
        forall|i: int|
            0 <= i < stack.len() ==> (#[trigger] stack[i]).2 >= 1 && s0.take(stack[i].2 - 1)
                == s1.take(stack[i].2 - 1),
    ensures
        contributions(g, t, s0, stack) == contributions(g, t, s1, stack),
    decreases stack.len(),
{
    if stack.len() > 0 {
        let rest = stack.drop_last();
        assert forall|i: int| 0 <= i < rest.len() implies (#[trigger] rest[i]).2 >= 1 && s0.take(
            rest[i].2 - 1,
        ) == s1.take(rest[i].2 - 1) by {
            assert(rest[i] == stack[i]);
        }
        lemma_contributions_steps(g, t, s0, s1, rest);
        assert(stack[stack.len() - 1] == stack.last());
    }
}

proof fn lemma_paths_from_nonempty(g: Seq<Seq<MatrixCell>>, width: nat, height: nat, c: Cursor)
    requires
        directions_wf(g, width, height),
        c.x < width,
        c.y < height,
    ensures
        paths_from(g, c).len() > 0,
        paths_from(g, c)[0] == first_path(g, c),
    decreases c.x + c.y,
{
    let s = cell_of(g, c).steps;
    assert(g[c.y as int][c.x as int] == cell_of(g, c));
    if !s.is_stop() {
        let d = preferred(s);
        assert(can_backward(c, d));
        lemma_paths_from_nonempty(g, width, height, backward(c, d));
        let del = StepMask { align: false, delete: true, insert: false };
        let ins = StepMask { align: false, delete: false, insert: true };
        let ali = StepMask { align: true, delete: false, insert: false };
        let pd = if s.delete && can_backward(c, del) {
            prefixed(seq![del], paths_from(g, backward(c, del)))
        } else {
            Seq::empty()
        };
        let pi = if s.insert && can_backward(c, ins) {
            prefixed(seq![ins], paths_from(g, backward(c, ins)))
        } else {
            Seq::empty()
        };
        let pa = if s.align && can_backward(c, ali) {
            prefixed(seq![ali], paths_from(g, backward(c, ali)))
        } else {
            Seq::empty()
        };
        assert(paths_from(g, c) == pd + pi + pa);
        assert(first_path(g, c) == seq![d] + first_path(g, backward(c, d)));
        if s.delete {
            assert(pd.len() > 0);
            assert((pd + pi + pa)[0] == pd[0]);
        } else if s.insert {
            assert(pi.len() > 0);
            assert((pd + pi + pa)[0] == pi[0]);
        } else {
            assert(pa.len() > 0);
            assert((pd + pi + pa)[0] == pa[0]);
        }
    }
}

/// The first alignment that a backtrace yields is the one that `first_path`
/// describes, which `Alignments::alignment` returns.
pub proof fn lemma_first_yield_is_first_path(g: Seq<Seq<MatrixCell>>, width: nat, height: nat, t: Cursor)
    requires
        directions_wf(g, width, height),
        t.x < width,
        t.y < height,
    ensures
        all_paths(g, t).len() == 0 <==> first_path(g, t).len() == 0,
        all_paths(g, t).len() > 0 ==> all_paths(g, t)[0] == first_path(g, t),
{
    lemma_paths_from_nonempty(g, width, height, t);
    let s = cell_of(g, t).steps;
    if !s.is_stop() {
        let d = preferred(s);
        assert(g[t.y as int][t.x as int] == cell_of(g, t));
        assert(can_backward(t, d));
        assert(first_path(g, t) == seq![d] + first_path(g, backward(t, d)));
    }
}

pub open spec fn pow4(k: nat) -> nat
    decreases k,
{
    if k == 0 {
        1
    } else {
        4 * pow4((k - 1) as nat)
    }
}

proof fn lemma_pow4_monotone(a: nat, b: nat)
    requires
        a <= b,
    ensures
        1 <= pow4(a) <= pow4(b),
    decreases b,
{
    if a < b {
        lemma_pow4_monotone(a, (b - 1) as nat);
    } else if a > 0 {
        lemma_pow4_monotone((a - 1) as nat, (a - 1) as nat);
    }
}

/// The work left on a backtrace stack: a cell `k` steps from the origin weighs
/// `4^k`, which outweighs its at most three predecessors together.
pub open spec fn potential(stack: Seq<(StepMask, Cursor, usize)>) -> nat
    decreases stack.len(),
{
    if stack.len() == 0 {
        0
    } else {
        potential(stack.drop_last()) + pow4((stack.last().1.x + stack.last().1.y) as nat)
    }
}

proof fn lemma_potential_push(stack: Seq<(StepMask, Cursor, usize)>, e: (StepMask, Cursor, usize))
    ensures
        potential(stack.push(e)) == potential(stack) + pow4((e.1.x + e.1.y) as nat),
{
    assert(stack.push(e).drop_last() =~= stack);
}

/// A stack entry: the direction that led to the cell, the cell, and the
/// number of steps from the start cell. The start cell itself is the only
/// entry of depth zero, and stands alone.
pub open spec fn entry_ok(
    g: Seq<Seq<MatrixCell>>,
    width: nat,
    height: nat,
    t: Cursor,
    steps: Seq<StepMask>,
    stack_len: int,
    e: (StepMask, Cursor, usize),
    i: int,
) -> bool {
    if e.2 == 0 {
        e.0.is_stop() && e.1 == t && steps.len() == 0 && i == 0 && stack_len == 1
    } else {
        let path = steps.take(e.2 - 1).push(e.0);
        &&& e.0.is_direction()
        &&& e.2 - 1 <= steps.len()
        &&& traced(g, t, path)
        &&& e.1 == walk_backward(t, path)
        &&& e.1.x < width
        &&& e.1.y < height
    }
}

/// What the entry just taken off the stack, at `c` with `depth` steps behind
/// it, still has to yield.
pub open spec fn pending(g: Seq<Seq<MatrixCell>>, t: Cursor, steps: Seq<StepMask>, c: Cursor, depth: usize) -> Seq<Seq<StepMask>> {
    if depth == 0 {
        all_paths(g, t)
    } else {
        prefixed(steps, paths_from(g, c))
    }
}

/// The contributions of the three children of `c`, pushed align first and
/// delete last, make up every completion of the path to `c`.
proof fn lemma_children_compose(
    g: Seq<Seq<MatrixCell>>,
    c: Cursor,
    s1: Seq<StepMask>,
    c0: Seq<Seq<StepMask>>,
    pd: Seq<Seq<StepMask>>,
    pi: Seq<Seq<StepMask>>,
    pa: Seq<Seq<StepMask>>,
    rem: Seq<Seq<StepMask>>,
)
    requires
        rem == prefixed(s1, pd) + (prefixed(s1, pi) + (prefixed(s1, pa) + c0)),
        !cell_of(g, c).steps.is_stop() ==> paths_from(g, c) == pd + pi + pa,
        cell_of(g, c).steps.is_stop() ==> pd.len() == 0 && pi.len() == 0 && pa.len() == 0,
    ensures
        rem == (if cell_of(g, c).steps.is_stop() {
            Seq::empty()
        } else {
            prefixed(s1, paths_from(g, c))
        }) + c0,
{
    lemma_prefixed_concat(s1, pd, pi);
    lemma_prefixed_concat(s1, pd + pi, pa);
    if cell_of(g, c).steps.is_stop() {
        assert(rem =~= Seq::<Seq<StepMask>>::empty() + c0);
    } else {
        assert(rem =~= prefixed(s1, paths_from(g, c)) + c0);
    }
}

/// A lazy depth-first backtrace that yields each optimal alignment in turn.
pub struct Iter<'a, M> {
    matrix: &'a M,
    stack: Vec<(StepMask, Cursor, usize)>,
    steps: Vec<StepMask>,
    terminal: Cursor,
    score: i64,
}

impl<'a, M: AlignmentMatrix> Iter<'a, M> {
    pub closed spec fn spec_matrix(&self) -> M {
        *self.matrix
    }

    pub closed spec fn spec_terminal(&self) -> Cursor {
        self.terminal
    }

    pub closed spec fn spec_score(&self) -> i64 {
        self.score
    }

    /// The paths still to be yielded, each recorded backwards, in order.
    pub closed spec fn remaining(&self) -> Seq<Seq<StepMask>> {
        contributions(self.matrix.grid(), self.terminal, self.steps@, self.stack@)
    }

    pub closed spec fn wf(&self) -> bool {
        let m = *self.matrix;
        let g = m.grid();
        let w = m.spec_width();
        let h = m.spec_height();
        let t = self.terminal;
        let st = self.stack@;
        let s = self.steps@;
        &&& m.wf()
        &&& has_shape(g, w, h)
        &&& directions_wf(g, w, h)
        &&& w * h <= usize::MAX
        &&& t.x < w
        &&& t.y < h
        &&& traced(g, t, s)
        &&& forall|i: int| 0 <= i < st.len() ==> entry_ok(g, w, h, t, s, st.len() as int, #[trigger] st[i], i)
        &&& forall|i: int, j: int| 0 <= i < j < st.len() ==> (#[trigger] st[i]).2 <= (#[trigger] st[j]).2
    }

    /// A backtrace over `matrix` from `cursor`, whose alignments carry `score`.
    pub fn new(matrix: &'a M, cursor: Cursor, score: i64) -> (r: Iter<'a, M>)
        requires
            matrix.wf(),
            cursor.x < matrix.spec_width(),
            cursor.y < matrix.spec_height(),
            directions_wf(matrix.grid(), matrix.spec_width(), matrix.spec_height()),
        ensures
            r.wf(),
            r.spec_matrix() == *matrix,
            r.spec_terminal() == cursor,
            r.spec_score() == score,
            r.remaining() == all_paths(matrix.grid(), cursor),
    {
        proof {
            matrix.lemma_wf();
        }
        let mut stack: Vec<(StepMask, Cursor, usize)> = Vec::new();
        let seed = (StepMask::stop(), cursor, 0);
        stack.push(seed);
        let r = Iter { matrix, stack, steps: Vec::new(), terminal: cursor, score };
        proof {
            lemma_contributions_push(matrix.grid(), cursor, r.steps@, Seq::empty(), seed);
            assert(r.stack@ =~= Seq::<(StepMask, Cursor, usize)>::empty().push(seed));
            assert(r.remaining() =~= all_paths(matrix.grid(), cursor));
        }
        r
    }

    /// The state between taking the top entry off the stack and pushing the
    /// cells it can be reached from: the steps buffer holds the path to
    /// `c`, of `depth` steps, and every entry left is at most one deeper.
    closed spec fn between(&self, c: Cursor, depth: usize) -> bool {
        let m = *self.matrix;
        let g = m.grid();
        let w = m.spec_width();
        let h = m.spec_height();
        let t = self.terminal;
        let st = self.stack@;
        let s = self.steps@;
        &&& m.wf()
        &&& has_shape(g, w, h)
        &&& directions_wf(g, w, h)
        &&& w * h <= usize::MAX
        &&& t.x < w
        &&& t.y < h
        &&& traced(g, t, s)
        &&& c == walk_backward(t, s)
        &&& s.len() == depth
        &&& depth < usize::MAX
        &&& c.x < w
        &&& c.y < h
        &&& forall|i: int| 0 <= i < st.len() ==> (#[trigger] st[i]).2 >= 1 && st[i].2 <= depth + 1
            && entry_ok(g, w, h, t, s, st.len() as int, st[i], i)
        &&& forall|i: int, j: int| 0 <= i < j < st.len() ==> (#[trigger] st[i]).2 <= (#[trigger] st[j]).2
    }

    fn take_top(&mut self) -> (r: (Cursor, usize))
        requires
            old(self).wf(),
            old(self).stack@.len() > 0,
        ensures
            final(self).between(r.0, r.1),
            *final(self).matrix == *old(self).matrix,
            final(self).terminal == old(self).terminal,
            final(self).score == old(self).score,
            potential(old(self).stack@) == potential(final(self).stack@) + pow4((r.0.x + r.0.y) as nat),
            r.1 == 0 ==> r.0 == old(self).terminal && final(self).steps@.len() == 0,
            old(self).remaining() == pending(old(self).matrix.grid(), old(self).terminal, final(self).steps@, r.0, r.1)
                + contributions(old(self).matrix.grid(), old(self).terminal, final(self).steps@, final(self).stack@),
    {
        let ghost g = self.matrix.grid();
        let ghost w = self.matrix.spec_width();
        let ghost h = self.matrix.spec_height();
        let ghost t = self.terminal;
        let ghost st0 = self.stack@;
        let ghost s0 = self.steps@;
        let top = self.stack.pop();
        let (mask, cursor, depth) = match top {
            Some(e) => e,
            None => (StepMask::stop(), self.terminal, 0),
        };
        let ghost st1 = self.stack@;
        proof {
            assert(st1 =~= st0.drop_last());
            assert(entry_ok(g, w, h, t, s0, st0.len() as int, st0[st0.len() - 1], st0.len() - 1));
        }
        if depth > 0 {
            self.steps.truncate(depth - 1);
            self.steps.push(mask);
        }
        proof {
            let s1 = self.steps@;
            if depth > 0 {
                assert(s1 =~= s0.take(depth - 1).push(mask));
            } else {
                assert(s1 =~= s0);
            }
            lemma_traced_walks(g, t, s1);
            assert(t.x + t.y < usize::MAX) by {
                assert(t.x + t.y + 1 < w * h + 1) by (nonlinear_arith)
                    requires
                        t.x < w,
                        t.y < h,
                ;
            }
            assert forall|i: int| 0 <= i < st1.len() implies (#[trigger] st1[i]).2 >= 1 && st1[i].2 <= depth + 1
                && entry_ok(g, w, h, t, s1, st1.len() as int, st1[i], i) by {
                assert(entry_ok(g, w, h, t, s0, st0.len() as int, st0[i], i));
                assert(st0[i].2 <= st0[st0.len() - 1].2);
                if st1[i].2 > 0 {
                    assert(s1.take(st1[i].2 - 1) =~= s0.take(st1[i].2 - 1));
                }
            }
            assert forall|i: int, j: int| 0 <= i < j < st1.len() implies (#[trigger] st1[i]).2 <= (#[trigger] st1[j]).2 by {
                assert(st0[i].2 <= st0[j].2);
            }
            assert(st0 =~= st1.push(st0.last()));
            lemma_contributions_push(g, t, s0, st1, st0.last());
            assert forall|i: int| 0 <= i < st1.len() implies (#[trigger] st1[i]).2 >= 1 && s0.take(st1[i].2 - 1)
                == s1.take(st1[i].2 - 1) by {
                assert(entry_ok(g, w, h, t, s0, st0.len() as int, st0[i], i));
                assert(st0[i].2 <= st0[st0.len() - 1].2);
                assert(s1.take(st1[i].2 - 1) =~= s0.take(st1[i].2 - 1));
            }
            lemma_contributions_steps(g, t, s0, s1, st1);
            if depth > 0 {
                assert(s0.take(depth - 1).push(mask) == s1);
            }
        }
        (cursor, depth)
    }

    fn push_child(&mut self, e: (StepMask, Cursor, usize), cursor: Cursor, depth: usize)
        requires
            old(self).between(cursor, depth),
            e.2 == depth + 1,
            e.0.is_direction(),
            cell_of(old(self).matrix.grid(), cursor).steps.spec_contains(e.0),
            e.1 == backward(cursor, e.0),
        ensures
            final(self).between(cursor, depth),
            *final(self).matrix == *old(self).matrix,
            final(self).terminal == old(self).terminal,
            final(self).score == old(self).score,
            final(self).steps@ == old(self).steps@,
            potential(final(self).stack@) == potential(old(self).stack@) + pow4((e.1.x + e.1.y) as nat),
            final(self).remaining() == prefixed(old(self).steps@, prefixed(seq![e.0], paths_from(old(self).matrix.grid(), e.1)))
                + old(self).remaining(),
    {
        proof {
            self.lemma_child_ok(e, cursor, depth);
            lemma_potential_push(self.stack@, e);
            lemma_contributions_push(self.matrix.grid(), self.terminal, self.steps@, self.stack@, e);
            assert(self.steps@.take(e.2 - 1) =~= self.steps@);
            lemma_prefixed_twice(self.steps@, e.0, paths_from(self.matrix.grid(), e.1));
        }
        self.stack.push(e);
    }

    #[verifier::rlimit(40)]
    fn push_children(&mut self, cursor: Cursor, depth: usize, cell: MatrixCell)
        requires
            old(self).between(cursor, depth),
            cell == cell_of(old(self).matrix.grid(), cursor),
        ensures
            final(self).wf(),
            *final(self).matrix == *old(self).matrix,
            final(self).terminal == old(self).terminal,
            final(self).score == old(self).score,
            final(self).steps@ == old(self).steps@,
            potential(final(self).stack@) < potential(old(self).stack@) + pow4((cursor.x + cursor.y) as nat),
            final(self).remaining() == (if cell.steps.is_stop() {
                Seq::empty()
            } else {
                prefixed(old(self).steps@, paths_from(old(self).matrix.grid(), cursor))
            }) + contributions(old(self).matrix.grid(), old(self).terminal, old(self).steps@, old(self).stack@),
    {
        let ghost st1 = self.stack@;
        let ghost g = self.matrix.grid();
        let ghost s1 = self.steps@;
        let ghost c0 = self.remaining();
        let ghost del = StepMask { align: false, delete: true, insert: false };
        let ghost ins = StepMask { align: false, delete: false, insert: true };
        let ghost ali = StepMask { align: true, delete: false, insert: false };
        let ghost pd = if cell.steps.delete && can_backward(cursor, del) {
            prefixed(seq![del], paths_from(g, backward(cursor, del)))
        } else {
            Seq::empty()
        };
        let ghost pi = if cell.steps.insert && can_backward(cursor, ins) {
            prefixed(seq![ins], paths_from(g, backward(cursor, ins)))
        } else {
            Seq::empty()
        };
        let ghost pa = if cell.steps.align && can_backward(cursor, ali) {
            prefixed(seq![ali], paths_from(g, backward(cursor, ali)))
        } else {
            Seq::empty()
        };
        let ghost lower = pow4((cursor.x + cursor.y) as nat);
        proof {
            lemma_pow4_monotone((cursor.x + cursor.y) as nat, (cursor.x + cursor.y) as nat);
            assert(g[cursor.y as int][cursor.x as int] == cell);
        }
        let ghost bound = if cursor.x + cursor.y > 0 { pow4((cursor.x + cursor.y - 1) as nat) } else { 0 };
        let ghost pushed: int = 0;
        let ghost added: int = 0;
        let next_depth = depth + 1;
        if cell.steps.align {
            let e = (StepMask::align(), Cursor { x: cursor.x - 1, y: cursor.y - 1 }, next_depth);
            proof {
                lemma_pow4_monotone((e.1.x + e.1.y) as nat, (cursor.x + cursor.y - 1) as nat);
            }
            self.push_child(e, cursor, depth);
            proof {
                pushed = pushed + 1;
                added = added + pow4((e.1.x + e.1.y) as nat);
            }
        } else {
            assert(prefixed(s1, pa) + c0 =~= c0);
        }
        assert(self.remaining() == prefixed(s1, pa) + c0);
        if cell.steps.insert {
            let e = (StepMask::insert(), Cursor { x: cursor.x, y: cursor.y - 1 }, next_depth);
            proof {
                lemma_pow4_monotone((e.1.x + e.1.y) as nat, (cursor.x + cursor.y - 1) as nat);
            }
            self.push_child(e, cursor, depth);
            proof {
                pushed = pushed + 1;
                added = added + pow4((e.1.x + e.1.y) as nat);
            }
        } else {
            assert(prefixed(s1, pi) + (prefixed(s1, pa) + c0) =~= prefixed(s1, pa) + c0);
        }
        assert(self.remaining() == prefixed(s1, pi) + (prefixed(s1, pa) + c0));
        if cell.steps.delete {
            let e = (StepMask::delete(), Cursor { x: cursor.x - 1, y: cursor.y }, next_depth);
            proof {
                lemma_pow4_monotone((e.1.x + e.1.y) as nat, (cursor.x + cursor.y - 1) as nat);
            }
            self.push_child(e, cursor, depth);
            proof {
                pushed = pushed + 1;
                added = added + pow4((e.1.x + e.1.y) as nat);
            }
        } else {
            assert(prefixed(s1, pd) + (prefixed(s1, pi) + (prefixed(s1, pa) + c0)) =~= prefixed(s1, pi) + (prefixed(s1, pa) + c0));
        }
        assert(self.remaining() == prefixed(s1, pd) + (prefixed(s1, pi) + (prefixed(s1, pa) + c0)));
        proof {
            lemma_children_compose(g, cursor, s1, c0, pd, pi, pa, self.remaining());
            assert(potential(self.stack@) == potential(st1) + added);
            if pushed > 0 {
                assert(cursor.x + cursor.y > 0);
                assert(lower == 4 * bound);
                assert(added <= 3 * bound);
            } else {
                assert(added == 0);
            }
        }
    }

    /// Pushing `e` onto a stack in the `between` state, for a direction that
    /// the cell at `c` records, keeps the stack well formed.
    proof fn lemma_child_ok(&self, e: (StepMask, Cursor, usize), c: Cursor, depth: usize)
        requires
            self.between(c, depth),
            e.2 == depth + 1,
            e.0.is_direction(),
            cell_of(self.matrix.grid(), c).steps.spec_contains(e.0),
            e.1 == backward(c, e.0),
        ensures
            ({
                let m = *self.matrix;
                let new_stack = self.stack@.push(e);
                &&& forall|i: int| 0 <= i < new_stack.len() ==> (#[trigger] new_stack[i]).2 >= 1
                    && entry_ok(m.grid(), m.spec_width(), m.spec_height(), self.terminal, self.steps@, new_stack.len() as int, new_stack[i], i)
                &&& forall|i: int| 0 <= i < new_stack.len() ==> (#[trigger] new_stack[i]).2 <= depth + 1
                &&& forall|i: int, j: int| 0 <= i < j < new_stack.len() ==> (#[trigger] new_stack[i]).2 <= (#[trigger] new_stack[j]).2
            }),
    {
        let s1 = self.steps@;
        let path = s1.take(e.2 - 1).push(e.0);
        assert(s1.take(e.2 - 1) =~= s1);
        assert(path.drop_last() =~= s1);
        let s = cell_of(self.matrix.grid(), c).steps;
        assert(s == self.matrix.grid()[c.y as int][c.x as int].steps);
        let st = self.stack@;
        let new_stack = st.push(e);
        assert forall|i: int| 0 <= i < new_stack.len() implies (#[trigger] new_stack[i]).2 >= 1
            && entry_ok(self.matrix.grid(), self.matrix.spec_width(), self.matrix.spec_height(), self.terminal, s1, new_stack.len() as int, new_stack[i], i) by {
            if i < st.len() {
                assert(new_stack[i] == st[i]);
                assert(st[i].2 >= 1 && entry_ok(self.matrix.grid(), self.matrix.spec_width(), self.matrix.spec_height(), self.terminal, s1, st.len() as int, st[i], i));
            }
        }
        assert forall|i: int, j: int| 0 <= i < j < new_stack.len() implies (#[trigger] new_stack[i]).2 <= (#[trigger] new_stack[j]).2 by {
            if j < st.len() {
                assert(st[i].2 <= st[j].2);
            } else {
                assert(st[i].2 >= 1 && st[i].2 <= depth + 1);
            }
        }
    }

    /// The next optimal alignment, or `None` when every one has been yielded.
    ///
    /// Each alignment follows, from its origin to the start cell, only
    /// directions that the cells record as optimal; its origin is a stop cell.
    pub fn next(&mut self) -> (r: Option<Alignment>)
        requires
            old(self).wf(),
        ensures
            final(self).wf(),
            final(self).spec_matrix() == old(self).spec_matrix(),
            final(self).spec_terminal() == old(self).spec_terminal(),
            final(self).spec_score() == old(self).spec_score(),
            r matches Some(a) ==> {
                let g = old(self).spec_matrix().grid();
                let t = old(self).spec_terminal();
                &&& a.wf()
                &&& a.spec_steps().len() > 0
                &&& traced(g, t, a.spec_steps().reverse())
                &&& a.spec_origin() == walk_backward(t, a.spec_steps().reverse())
                &&& a.destination() == t
                &&& cell_of(g, a.spec_origin()).steps.is_stop()
                &&& a.spec_score() == old(self).spec_score()
            },
            old(self).remaining().len() == 0 ==> r is None && final(self).remaining().len() == 0,
            old(self).remaining().len() > 0 ==> (r matches Some(a) && a.spec_steps().reverse()
                == old(self).remaining()[0] && final(self).remaining() == old(self).remaining().drop_first()),
    {
        let ghost g = self.matrix.grid();
        let ghost t = self.terminal;
        let ghost m0 = *self.matrix;
        let ghost score0 = self.score;
        loop
            invariant
                self.wf(),
                m0 == old(self).spec_matrix(),
                t == old(self).spec_terminal(),
                score0 == old(self).spec_score(),
                *self.matrix == m0,
                self.terminal == t,
                self.score == score0,
                g == m0.grid(),
                self.remaining() == old(self).remaining(),
            decreases potential(self.stack@),
        {
            if self.stack.len() == 0 {
                proof {
                    assert(self.remaining() =~= Seq::<Seq<StepMask>>::empty());
                }
                return None;
            }
            let ghost before = self.remaining();
            let (cursor, depth) = self.take_top();
            let cell = self.matrix.cell(&cursor);
            let ghost s1 = self.steps@;
            let ghost rest = contributions(g, t, s1, self.stack@);
            proof {
                assert(before == pending(g, t, s1, cursor, depth) + rest);
                if cursor.x == 0 && cursor.y == 0 {
                    assert(g[0][0] == cell_of(g, cursor));
                }
            }
            self.push_children(cursor, depth, cell);
            proof {
                if cell.steps.is_stop() {
                    if depth > 0 {
                        assert(paths_from(g, cursor) =~= seq![Seq::<StepMask>::empty()]);
                        assert(prefixed(s1, paths_from(g, cursor)) =~= seq![s1]);
                    }
                } else {
                    if depth == 0 {
                        assert(s1 =~= Seq::<StepMask>::empty());
                        lemma_prefixed_empty(paths_from(g, cursor));
                    }
                }
            }
            if (cell.steps.is_empty() || (cursor.x == 0 && cursor.y == 0)) && depth > 0 {
                let steps = reversed(&self.steps);
                proof {
                    lemma_trace_is_alignment(g, t, s1);
                    assert(steps@.reverse() =~= s1);
                    assert(before == seq![s1] + rest);
                    assert((seq![s1] + rest).drop_first() =~= rest);
                }
                return Some(Alignment::new(cursor, steps, self.score));
            }
        }
    }
}

/// `v` in reverse order.
fn reversed(v: &Vec<StepMask>) -> (r: Vec<StepMask>)
    ensures
        r@ == v@.reverse(),
{
    let mut r: Vec<StepMask> = Vec::new();
    let mut i: usize = v.len();
    while i > 0
        invariant
            i <= v.len(),
            r@ =~= v@.subrange(i as int, v@.len() as int).reverse(),
        decreases i,
    {
        i = i - 1;
        r.push(v[i]);
        assert(r@ =~= v@.subrange(i as int, v@.len() as int).reverse());
    }
    r
}

} // verus!
