use vstd::prelude::*;

use crate::alignment::Alignment;
use crate::alignments::{directions_wf, first_alignment, first_alignment_spec, Iter};
use crate::cell::MatrixCell;
use crate::cursor::Cursor;
use crate::matrix::{blank_cell, blank_grid, has_shape, AlignmentMatrix, MatrixError};
use crate::step_mask::StepMask;
use crate::strategy::{abs, cost_index, delete_mask, insert_mask};

verus! {

/// Similarity scoring, where higher scores are better: what aligning two equal
/// or unequal elements earns, what a gap earns, and how a running total is
/// adjusted.
pub trait Strategy {
    spec fn spec_match_score(&self) -> int;

    spec fn spec_mismatch_score(&self) -> int;

    spec fn spec_insert_score(&self) -> int;

    spec fn spec_delete_score(&self) -> int;

    spec fn spec_total_score(&self, score: int) -> int;

    /// Adjusting a total never moves it further from zero.
    proof fn lemma_total_shrinks(&self, score: int)
        ensures
            abs(self.spec_total_score(score)) <= abs(score),
    ;

    fn match_score(&self) -> (r: isize)
        ensures
            r == self.spec_match_score(),
    ;

    fn mismatch_score(&self) -> (r: isize)
        ensures
            r == self.spec_mismatch_score(),
    ;

    fn insert_score(&self) -> (r: isize)
        ensures
            r == self.spec_insert_score(),
    ;

    fn delete_score(&self) -> (r: isize)
        ensures
            r == self.spec_delete_score(),
    ;

    fn total_score(&self, score: isize) -> (r: isize)
        ensures
            r == self.spec_total_score(score as int),
    ;

    fn step_mask(&self, align: isize, insert: isize, delete: isize) -> StepMask;
}

/// The directions whose score is the largest of the three.
pub open spec fn max_steps(align: int, delete: int, insert: int) -> StepMask {
    StepMask {
        align: align >= delete && align >= insert,
        delete: delete >= align && delete >= insert,
        insert: insert >= align && insert >= delete,
    }
}

pub open spec fn max3(a: int, b: int, c: int) -> int {
    if a >= b && a >= c {
        a
    } else if b >= c {
        b
    } else {
        c
    }
}

/// The largest magnitude of the four scores.
pub open spec fn magnitude<S: Strategy>(s: S) -> int {
    let a = abs(s.spec_match_score());
    let b = abs(s.spec_mismatch_score());
    let c = abs(s.spec_insert_score());
    let d = abs(s.spec_delete_score());
    let ab = if a >= b {
        a
    } else {
        b
    };
    let cd = if c >= d {
        c
    } else {
        d
    };
    if ab >= cd {
        ab
    } else {
        cd
    }
}

/// The similarity score of cell `(i, j)` for a first sequence of length `xl`,
/// where `eq[j * xl + i]` tells whether `x[i]` equals `y[j]`.
///
/// Row 0 and column 0 accumulate gaps; every inner cell takes the best of its
/// diagonal, left and upper neighbours.
pub open spec fn sim<S: Strategy>(s: S, xl: nat, eq: Seq<bool>, i: nat, j: nat) -> int
    decreases i + j,
{
    if j == 0 {
        s.spec_total_score(s.spec_delete_score() * i)
    } else if i == 0 {
        s.spec_total_score(s.spec_insert_score() * j)
    } else {
        let diag = sim(s, xl, eq, (i - 1) as nat, (j - 1) as nat);
        let a = diag + if eq[cost_index(xl, i - 1, j - 1)] {
            s.spec_match_score()
        } else {
            s.spec_mismatch_score()
        };
        let d = sim(s, xl, eq, (i - 1) as nat, j) + s.spec_delete_score();
        let n = sim(s, xl, eq, i, (j - 1) as nat) + s.spec_insert_score();
        s.spec_total_score(max3(a, d, n))
    }
}

/// The three candidate scores of an inner cell: align, delete, insert.
pub open spec fn candidates<S: Strategy>(s: S, xl: nat, eq: Seq<bool>, i: nat, j: nat) -> (
    int,
    int,
    int,
) {
    let diag = sim(s, xl, eq, (i - 1) as nat, (j - 1) as nat);
    (
        diag + if eq[cost_index(xl, i - 1, j - 1)] {
            s.spec_match_score()
        } else {
            s.spec_mismatch_score()
        },
        sim(s, xl, eq, (i - 1) as nat, j) + s.spec_delete_score(),
        sim(s, xl, eq, i, (j - 1) as nat) + s.spec_insert_score(),
    )
}

/// The matrix cell `(i, j)`: its score and the directions of highest score.
pub open spec fn sim_cell<S: Strategy>(s: S, xl: nat, eq: Seq<bool>, i: nat, j: nat) -> MatrixCell {
    if i == 0 && j == 0 {
        blank_cell()
    } else if j == 0 {
        MatrixCell { score: sim(s, xl, eq, i, j) as i64, steps: delete_mask() }
    } else if i == 0 {
        MatrixCell { score: sim(s, xl, eq, i, j) as i64, steps: insert_mask() }
    } else {
        let c = candidates(s, xl, eq, i, j);
        MatrixCell { score: sim(s, xl, eq, i, j) as i64, steps: max_steps(c.0, c.1, c.2) }
    }
}

pub open spec fn sim_grid<S: Strategy>(s: S, xl: nat, yl: nat, eq: Seq<bool>) -> Seq<Seq<MatrixCell>> {
    Seq::new(yl + 1, |j: int| Seq::new(xl + 1, |i: int| sim_cell(s, xl, eq, i as nat, j as nat)))
}

/// `h` replaces the best so far when it scores at least as high.
pub open spec fn better(acc: (int, Cursor), h: (int, Cursor)) -> (int, Cursor) {
    if h.0 >= acc.0 {
        h
    } else {
        acc
    }
}

/// The best cell after columns `1..=i` of row `j`, starting from `acc`.
pub open spec fn local_row<S: Strategy>(s: S, xl: nat, eq: Seq<bool>, acc: (int, Cursor), j: nat, i: nat) -> (
    int,
    Cursor,
)
    decreases i,
{
    if i == 0 {
        acc
    } else {
        better(
            local_row(s, xl, eq, acc, j, (i - 1) as nat),
            (sim(s, xl, eq, i, j), Cursor { x: i as usize, y: j as usize }),
        )
    }
}

/// The best cell of rows `1..=j`, the last one on ties, or the origin with
/// score zero when none scores as much.
pub open spec fn local_rows<S: Strategy>(s: S, xl: nat, eq: Seq<bool>, j: nat) -> (int, Cursor)
    decreases j,
{
    if j == 0 {
        (0, Cursor { x: 0, y: 0 })
    } else {
        local_row(s, xl, eq, local_rows(s, xl, eq, (j - 1) as nat), j, xl)
    }
}

/// The bottom-right cell, or the origin with score zero when a sequence is
/// empty.
pub open spec fn global_best<S: Strategy>(s: S, xl: nat, yl: nat, eq: Seq<bool>) -> (int, Cursor) {
    if xl >= 1 && yl >= 1 {
        (sim(s, xl, eq, xl, yl), Cursor { x: xl as usize, y: yl as usize })
    } else {
        (0, Cursor { x: 0, y: 0 })
    }
}

proof fn lemma_scaled(v: int, k: int, b: int)
    requires
        abs(v) <= b,
        0 <= k,
    ensures
        abs(v * k) <= b * k,
{
    if v >= 0 {
        assert(v * k <= b * k) by (nonlinear_arith)
            requires
                0 <= v <= b,
                0 <= k,
        ;
        assert(0 <= v * k) by (nonlinear_arith)
            requires
                0 <= v,
                0 <= k,
        ;
    } else {
        assert(-(v * k) <= b * k) by (nonlinear_arith)
            requires
                0 < -v <= b,
                0 <= k,
        ;
        assert(v * k <= 0) by (nonlinear_arith)
            requires
                v < 0,
                0 <= k,
        ;
    }
}

proof fn lemma_mul_succ(b: int, k: int)
    ensures
        b * (k + 1) == b * k + b,
{
    assert(b * (k + 1) == b * k + b) by (nonlinear_arith);
}

proof fn lemma_mul_le(b: int, k1: int, k2: int)
    requires
        0 <= b,
        k1 <= k2,
    ensures
        b * k1 <= b * k2,
{
    assert(b * k1 <= b * k2) by (nonlinear_arith)
        requires
            0 <= b,
            k1 <= k2,
    ;
}

/// No similarity score of cell `(i, j)` is further from zero than `i + j`
/// times the largest score magnitude.
pub proof fn lemma_sim_bound<S: Strategy>(s: S, xl: nat, eq: Seq<bool>, i: nat, j: nat)
    ensures
        abs(sim(s, xl, eq, i, j)) <= magnitude(s) * (i + j),
    decreases i + j,
{
    let b = magnitude(s);
    if j == 0 {
        lemma_scaled(s.spec_delete_score(), i as int, b);
        s.lemma_total_shrinks(s.spec_delete_score() * i);
    } else if i == 0 {
        lemma_scaled(s.spec_insert_score(), j as int, b);
        s.lemma_total_shrinks(s.spec_insert_score() * j);
    } else {
        lemma_sim_bound(s, xl, eq, (i - 1) as nat, (j - 1) as nat);
        lemma_sim_bound(s, xl, eq, (i - 1) as nat, j);
        lemma_sim_bound(s, xl, eq, i, (j - 1) as nat);
        lemma_mul_succ(b, i + j - 2);
        lemma_mul_succ(b, i + j - 1);
        let c = candidates(s, xl, eq, i, j);
        s.lemma_total_shrinks(max3(c.0, c.1, c.2));
    }
}

#[derive(Clone, Copy)]
struct Highscore {
    score: isize,
    cursor: Cursor,
}

struct Highscores {
    local: Highscore,
    global: Highscore,
}

impl Highscores {
    /// `highscore` becomes the local best when it scores at least as high, and
    /// always becomes the latest cell.
    fn update(&mut self, highscore: Highscore)
        ensures
            final(self).local == if highscore.score >= old(self).local.score {
                highscore
            } else {
                old(self).local
            },
            final(self).global == highscore,
    {
        if highscore.score >= self.local.score {
            self.local = highscore;
        }
        self.global = highscore;
    }
}

/// `eq` holds, row by row, what `f` said of each pair of positions.
pub open spec fn equalities_by<F: Fn(usize, usize) -> bool>(f: F, xl: nat, yl: nat, eq: Seq<bool>) -> bool {
    &&& eq.len() == xl * yl
    &&& forall|i: usize, j: usize|
        i < xl && j < yl ==> #[trigger] f.ensures((i, j), eq[cost_index(xl, i as int, j as int)])
}

/// Whether `x[i]` equals `y[j]` for every pair of positions, one row per `j`.
fn equalities<F: Fn(usize, usize) -> bool>(x_len: usize, y_len: usize, f: &F) -> (r: Vec<bool>)
    requires
        x_len * y_len <= usize::MAX,
        forall|i: usize, j: usize| i < x_len && j < y_len ==> #[trigger] f.requires((i, j)),
    ensures
        equalities_by(*f, x_len as nat, y_len as nat, r@),
{
    let m = x_len;
    let n = y_len;
    let mut eq: Vec<bool> = Vec::new();
    let mut j: usize = 0;
    while j < n
        invariant
            m == x_len,
            n == y_len,
            m * n <= usize::MAX,
            0 <= j <= n,
            eq@.len() == j * m,
            forall|i: usize, j: usize| i < x_len && j < y_len ==> #[trigger] f.requires((i, j)),
            forall|ii: usize, jj: usize|
                ii < m && jj < j ==> #[trigger] f.ensures((ii, jj), eq@[cost_index(m as nat, ii as int, jj as int)]),
        decreases n - j,
    {
        proof {
            assert((j + 1) * m <= m * n) by (nonlinear_arith)
                requires
                    j < n,
            ;
            assert((j + 1) * m == j * m + m) by (nonlinear_arith);
        }
        let mut i: usize = 0;
        while i < m
            invariant
                m == x_len,
                n == y_len,
                0 <= i <= m,
                j < n,
                j * m + m <= usize::MAX,
                eq@.len() == j * m + i,
                forall|i: usize, j: usize| i < x_len && j < y_len ==> #[trigger] f.requires((i, j)),
                forall|ii: usize, jj: usize|
                    (ii < m && jj < j) || (ii < i && jj == j) ==> #[trigger] f.ensures((ii, jj), eq@[cost_index(m as nat, ii as int, jj as int)]),
            decreases m - i,
        {
            let e = f(i, j);
            eq.push(e);
            proof {
                assert forall|ii: usize, jj: usize|
                    (ii < m && jj < j) || (ii <= i && jj == j) implies #[trigger] f.ensures((ii, jj), eq@[cost_index(m as nat, ii as int, jj as int)]) by {
                    if jj < j {
                        assert(jj * m + ii < j * m) by (nonlinear_arith)
                            requires
                                jj < j,
                                ii < m,
                        ;
                    }
                }
            }
            i = i + 1;
        }
        proof {
            assert((j + 1) * m == j * m + m) by (nonlinear_arith);
        }
        j = j + 1;
    }
    proof {
        assert(j * m == m * n) by (nonlinear_arith)
            requires
                j == n,
        ;
    }
    eq
}

/// The matrix of a similarity alignment, with the best cell for a local
/// alignment and the last cell for a global one.
pub struct AlignmentSet<T> {
    matrix: T,
    highscores: Highscores,
}

/// Every direction of the similarity matrix leads back into it.
proof fn lemma_sim_directions<S: Strategy>(s: S, xl: nat, yl: nat, eq: Seq<bool>)
    ensures
        directions_wf(sim_grid(s, xl, yl, eq), xl + 1, yl + 1),
{
    let g = sim_grid(s, xl, yl, eq);
    assert forall|y: int, x: int| 0 <= y < yl + 1 && 0 <= x < xl + 1 implies {
        let st = (#[trigger] g[y][x]).steps;
        &&& st.align ==> x >= 1 && y >= 1
        &&& st.delete ==> x >= 1
        &&& st.insert ==> y >= 1
    } by {
        assert(g[y][x] == sim_cell(s, xl, eq, x as nat, y as nat));
    }
}

proof fn lemma_local_row_in<S: Strategy>(s: S, xl: nat, eq: Seq<bool>, acc: (int, Cursor), j: nat, i: nat, yl: nat)
    requires
        acc.1.x <= xl,
        acc.1.y <= yl,
        j <= yl,
        i <= xl,
    ensures
        local_row(s, xl, eq, acc, j, i).1.x <= xl,
        local_row(s, xl, eq, acc, j, i).1.y <= yl,
    decreases i,
{
    if i > 0 {
        lemma_local_row_in(s, xl, eq, acc, j, (i - 1) as nat, yl);
    }
}

proof fn lemma_local_rows_in<S: Strategy>(s: S, xl: nat, eq: Seq<bool>, j: nat, yl: nat)
    requires
        j <= yl,
    ensures
        local_rows(s, xl, eq, j).1.x <= xl,
        local_rows(s, xl, eq, j).1.y <= yl,
    decreases j,
{
    if j > 0 {
        lemma_local_rows_in(s, xl, eq, (j - 1) as nat, yl);
        lemma_local_row_in(s, xl, eq, local_rows(s, xl, eq, (j - 1) as nat), j, xl, yl);
    }
}

/// The running highscores after the cells up to column `x` of row `y + 1`.
pub open spec fn spec_global_after<S: Strategy>(s: S, xl: nat, eq: Seq<bool>, y: nat, x: nat) -> (int, Cursor) {
    if x >= 1 {
        (sim(s, xl, eq, x, y + 1), Cursor { x: x as usize, y: (y + 1) as usize })
    } else if y >= 1 && xl >= 1 {
        (sim(s, xl, eq, xl, y), Cursor { x: xl as usize, y: y as usize })
    } else {
        (0, Cursor { x: 0, y: 0 })
    }
}

impl<T: AlignmentMatrix> AlignmentSet<T> {
    pub closed spec fn spec_matrix(&self) -> T {
        self.matrix
    }

    /// The best cell for a local alignment, with its score.
    pub closed spec fn spec_local(&self) -> (int, Cursor) {
        (self.highscores.local.score as int, self.highscores.local.cursor)
    }

    /// The last cell, where a global alignment ends, with its score.
    pub closed spec fn spec_global(&self) -> (int, Cursor) {
        (self.highscores.global.score as int, self.highscores.global.cursor)
    }

    pub open spec fn wf(&self) -> bool {
        let m = self.spec_matrix();
        &&& m.wf()
        &&& self.spec_local().1.x < m.spec_width()
        &&& self.spec_local().1.y < m.spec_height()
        &&& self.spec_global().1.x < m.spec_width()
        &&& self.spec_global().1.y < m.spec_height()
        &&& directions_wf(m.grid(), m.spec_width(), m.spec_height())
    }

    /// Aligns sequences of lengths `x_len` and `y_len` by similarity, where
    /// `f(i, j)` tells whether `x[i]` equals `y[j]`. Fails only where `T`
    /// cannot set up its storage.
    pub fn new<S: Strategy, F: Fn(usize, usize) -> bool>(x_len: usize, y_len: usize, strategy: S, f: F) -> (r: Result<AlignmentSet<T>, MatrixError>)
        requires
            (x_len + 1) * (y_len + 1) <= usize::MAX,
            x_len + y_len + 2 <= isize::MAX,
            magnitude(strategy) * (x_len + y_len + 2) <= isize::MAX,
            forall|i: usize, j: usize| i < x_len && j < y_len ==> #[trigger] f.requires((i, j)),
        ensures
            r matches Ok(a) ==> exists|eq: Seq<bool>| {
                &&& #[trigger] equalities_by(f, x_len as nat, y_len as nat, eq)
                &&& a.wf()
                &&& a.spec_matrix().grid() == sim_grid(strategy, x_len as nat, y_len as nat, eq)
                &&& a.spec_local() == local_rows(strategy, x_len as nat, eq, y_len as nat)
                &&& a.spec_global() == global_best(strategy, x_len as nat, y_len as nat, eq)
            },
            T::infallible() ==> r is Ok,
    {
        proof {
            assert(x_len * y_len <= (x_len + 1) * (y_len + 1)) by (nonlinear_arith);
        }
        let eq = equalities(x_len, y_len, &f);
        AlignmentSet::from_equalities(x_len, y_len, &strategy, &eq)
    }

    /// `new`, with `eq[j * x_len + i]` telling whether `x[i]` equals `y[j]`.
    pub fn from_equalities<S: Strategy>(x_len: usize, y_len: usize, strategy: &S, eq: &Vec<bool>) -> (r: Result<AlignmentSet<T>, MatrixError>)
        requires
            (x_len + 1) * (y_len + 1) <= usize::MAX,
            x_len + y_len + 2 <= isize::MAX,
            magnitude(*strategy) * (x_len + y_len + 2) <= isize::MAX,
            eq@.len() == x_len * y_len,
        ensures
            r matches Ok(a) ==> {
                &&& a.wf()
                &&& a.spec_matrix().grid() == sim_grid(*strategy, x_len as nat, y_len as nat, eq@)
                &&& a.spec_local() == local_rows(*strategy, x_len as nat, eq@, y_len as nat)
                &&& a.spec_global() == global_best(*strategy, x_len as nat, y_len as nat, eq@)
            },
            T::infallible() ==> r is Ok,
    {
        proof {
            crate::strategy::lemma_factor_fits((x_len + 1) as int, (y_len + 1) as int);
            assert((y_len + 1) * (x_len + 1) == (x_len + 1) * (y_len + 1)) by (nonlinear_arith);
            crate::strategy::lemma_factor_fits((y_len + 1) as int, (x_len + 1) as int);
            assert(x_len * y_len <= (x_len + 1) * (y_len + 1)) by (nonlinear_arith);
        }
        let width = x_len + 1;
        let height = y_len + 1;
        let mut matrix = match T::new(width, height) {
            Ok(m) => m,
            Err(e) => {
                return Err(e);
            },
        };
        let ghost s = *strategy;
        let ghost xl = x_len as nat;
        let ghost yl = y_len as nat;
        let ghost b = magnitude(s);
        let ghost lim = b * (x_len + y_len);
        proof {
            lemma_mul_succ(b, x_len + y_len);
            lemma_mul_succ(b, x_len + y_len + 1);
            assert(0 <= b);
        }
        AlignmentSet::prepare_matrix(&mut matrix, strategy, x_len, y_len, Ghost(eq@));
        proof {
            lemma_mul_le(b, x_len + 1, x_len + y_len + 2);
        }
        let mut row = AlignmentSet::<T>::prepared_row(width, strategy, Ghost(eq@));
        let mut highscores = AlignmentSet::<T>::prepared_highscores();
        let mut y: usize = 0;
        while y < y_len
            invariant
                s == *strategy,
                xl == x_len,
                yl == y_len,
                b == magnitude(s),
                lim == b * (x_len + y_len),
                0 <= b,
                lim + b <= isize::MAX,
                x_len + y_len + 2 <= isize::MAX,
                width == x_len + 1,
                height == y_len + 1,
                eq@.len() == x_len * y_len,
                x_len * y_len <= usize::MAX,
                0 <= y <= y_len,
                matrix.wf(),
                matrix.spec_width() == width,
                matrix.spec_height() == height,
                has_shape(matrix.grid(), width as nat, height as nat),
                row@.len() == width,
                forall|k: int| 0 <= k < width ==> #[trigger] row@[k] == sim(s, xl, eq@, k as nat, y as nat),
                forall|jj: int, ii: int|
                    0 <= jj < height && 0 <= ii < width ==> #[trigger] matrix.grid()[jj][ii] == if jj == 0 || ii == 0 || jj <= y {
                        sim_cell(s, xl, eq@, ii as nat, jj as nat)
                    } else {
                        blank_cell()
                    },
                (highscores.local.score as int, highscores.local.cursor) == local_rows(s, xl, eq@, y as nat),
                y == 0 ==> highscores.global.score == 0 && highscores.global.cursor == (Cursor { x: 0, y: 0 }),
                y > 0 ==> (highscores.global.score as int, highscores.global.cursor) == spec_global_after(s, xl, eq@, (y - 1) as nat, xl),
            decreases y_len - y,
        {
            proof {
                lemma_scaled(s.spec_insert_score(), y + 1, b);
                lemma_mul_le(b, y + 1, x_len + y_len);
            }
            let mut last_diagonal = row[0];
            let first = strategy.total_score(strategy.insert_score() * ((y + 1) as isize));
            row.set(0, first);
            let mut x: usize = 0;
            while x < x_len
                invariant
                    s == *strategy,
                    xl == x_len,
                    yl == y_len,
                    b == magnitude(s),
                    lim == b * (x_len + y_len),
                    0 <= b,
                    lim + b <= isize::MAX,
                    width == x_len + 1,
                    height == y_len + 1,
                    eq@.len() == x_len * y_len,
                    x_len * y_len <= usize::MAX,
                    y < y_len,
                    0 <= x <= x_len,
                    matrix.wf(),
                    matrix.spec_width() == width,
                    matrix.spec_height() == height,
                    has_shape(matrix.grid(), width as nat, height as nat),
                    row@.len() == width,
                    forall|k: int| 0 <= k <= x ==> #[trigger] row@[k] == sim(s, xl, eq@, k as nat, (y + 1) as nat),
                    forall|k: int| x < k < width ==> #[trigger] row@[k] == sim(s, xl, eq@, k as nat, y as nat),
                    last_diagonal == sim(s, xl, eq@, x as nat, y as nat),
                    forall|jj: int, ii: int|
                        0 <= jj < height && 0 <= ii < width ==> #[trigger] matrix.grid()[jj][ii] == if jj == 0 || ii == 0 || jj <= y || (jj == y + 1 && ii <= x) {
                            sim_cell(s, xl, eq@, ii as nat, jj as nat)
                        } else {
                            blank_cell()
                        },
                    (highscores.local.score as int, highscores.local.cursor) == local_row(s, xl, eq@, local_rows(s, xl, eq@, y as nat), (y + 1) as nat, x as nat),
                    (highscores.global.score as int, highscores.global.cursor) == spec_global_after(s, xl, eq@, y as nat, x as nat),
                decreases x_len - x,
            {
                proof {
                    lemma_sim_bound(s, xl, eq@, x as nat, (y + 1) as nat);
                    lemma_sim_bound(s, xl, eq@, (x + 1) as nat, y as nat);
                    lemma_sim_bound(s, xl, eq@, x as nat, y as nat);
                    lemma_sim_bound(s, xl, eq@, (x + 1) as nat, (y + 1) as nat);
                    lemma_mul_le(b, x + y + 1, x_len + y_len);
                    lemma_mul_le(b, x + 1 + y, x_len + y_len);
                    lemma_mul_le(b, x + y, x_len + y_len);
                    lemma_mul_le(b, x + y + 2, x_len + y_len);
                    crate::matrix::lemma_offset_in_range(x as int, y as int, x_len as int, y_len as int);
                }
                let previous = (last_diagonal, row[x], row[x + 1]);
                let equal = eq[y * x_len + x];
                let (steps, score) = AlignmentSet::<T>::calculate_cell(strategy, previous, equal, Ghost(lim));
                let cursor = Cursor { x: x + 1, y: y + 1 };
                proof {
                    let c = candidates(s, xl, eq@, (x + 1) as nat, (y + 1) as nat);
                    assert(y * x_len + x == cost_index(xl, x as int, y as int));
                    assert(c.0 == previous.0 + if equal { s.spec_match_score() } else { s.spec_mismatch_score() });
                    assert(score == sim(s, xl, eq@, (x + 1) as nat, (y + 1) as nat));
                }
                highscores.update(Highscore { cursor, score });
                matrix.set_cell(&cursor, MatrixCell { score: score as i64, steps });
                let old_diagonal = row[x + 1];
                row.set(x + 1, score);
                last_diagonal = old_diagonal;
                proof {
                    matrix.lemma_wf();
                }
                x = x + 1;
            }
            y = y + 1;
        }
        proof {
            lemma_sim_directions(s, xl, yl, eq@);
            lemma_local_rows_in(s, xl, eq@, yl, yl);
            assert(matrix.grid() =~= sim_grid(s, xl, yl, eq@)) by {
                assert forall|jj: int| 0 <= jj < height implies #[trigger] matrix.grid()[jj] =~= sim_grid(s, xl, yl, eq@)[jj] by {
                    assert forall|ii: int| 0 <= ii < width implies #[trigger] matrix.grid()[jj][ii] == sim_grid(s, xl, yl, eq@)[jj][ii] by {
                    }
                }
            }
        }
        Ok(AlignmentSet { matrix, highscores })
    }

    /// The three candidates of a cell from its diagonal, left and upper
    /// neighbours: the directions of highest score, and the adjusted highest
    /// score.
    fn calculate_cell<S: Strategy>(strategy: &S, previous_scores: (isize, isize, isize), equal: bool, Ghost(lim): Ghost<int>) -> (r: (StepMask, isize))
        requires
            0 <= magnitude(*strategy),
            lim + magnitude(*strategy) <= isize::MAX,
            abs(previous_scores.0 as int) <= lim,
            abs(previous_scores.1 as int) <= lim,
            abs(previous_scores.2 as int) <= lim,
        ensures
            ({
                let s = *strategy;
                let a = previous_scores.0 + if equal { s.spec_match_score() } else { s.spec_mismatch_score() };
                let d = previous_scores.1 + s.spec_delete_score();
                let n = previous_scores.2 + s.spec_insert_score();
                r.0 == max_steps(a, d, n) && r.1 == s.spec_total_score(max3(a, d, n))
            }),
    {
        let (mut align, mut delete, mut insert) = previous_scores;
        align = align + if equal {
            strategy.match_score()
        } else {
            strategy.mismatch_score()
        };
        delete = delete + strategy.delete_score();
        insert = insert + strategy.insert_score();
        let steps = StepMask::from_scores(align, delete, insert);
        let best = if align >= delete && align >= insert {
            align
        } else if delete >= insert {
            delete
        } else {
            insert
        };
        proof {
            strategy.lemma_total_shrinks(best as int);
        }
        let score = strategy.total_score(best);
        (steps, score)
    }

    /// Seeds row 0 with deletions and column 0 with insertions.
    fn prepare_matrix<S: Strategy>(matrix: &mut T, strategy: &S, x_len: usize, y_len: usize, Ghost(eq): Ghost<Seq<bool>>)
        requires
            old(matrix).wf(),
            old(matrix).spec_width() == x_len + 1,
            old(matrix).spec_height() == y_len + 1,
            old(matrix).grid() == blank_grid((x_len + 1) as nat, (y_len + 1) as nat),
            magnitude(*strategy) * (x_len + y_len + 2) <= isize::MAX,
            x_len + y_len + 2 <= isize::MAX,
        ensures
            final(matrix).wf(),
            final(matrix).spec_width() == x_len + 1,
            final(matrix).spec_height() == y_len + 1,
            has_shape(final(matrix).grid(), (x_len + 1) as nat, (y_len + 1) as nat),
            forall|jj: int, ii: int|
                0 <= jj <= y_len && 0 <= ii <= x_len ==> #[trigger] final(matrix).grid()[jj][ii] == if jj == 0 || ii == 0 {
                    sim_cell(*strategy, x_len as nat, eq, ii as nat, jj as nat)
                } else {
                    blank_cell()
                },
    {
        proof {
            matrix.lemma_wf();
        }
        let ghost s = *strategy;
        let ghost b = magnitude(s);
        proof {
            lemma_mul_succ(b, x_len + y_len);
            lemma_mul_succ(b, x_len + y_len + 1);
        }
        let mut y: usize = 1;
        while y <= y_len
            invariant
                s == *strategy,
                b == magnitude(s),
                0 <= b,
                b * (x_len + y_len) <= isize::MAX,
                x_len + y_len + 2 <= isize::MAX,
                1 <= y <= y_len + 1,
                matrix.wf(),
                matrix.spec_width() == x_len + 1,
                matrix.spec_height() == y_len + 1,
                has_shape(matrix.grid(), (x_len + 1) as nat, (y_len + 1) as nat),
                forall|jj: int, ii: int|
                    0 <= jj <= y_len && 0 <= ii <= x_len ==> #[trigger] matrix.grid()[jj][ii] == if ii == 0 && 1 <= jj < y {
                        sim_cell(s, x_len as nat, eq, ii as nat, jj as nat)
                    } else {
                        blank_cell()
                    },
            decreases y_len + 1 - y,
        {
            proof {
                lemma_scaled(s.spec_insert_score(), y as int, b);
                lemma_mul_le(b, y as int, x_len + y_len);
                s.lemma_total_shrinks(s.spec_insert_score() * y);
            }
            let score = strategy.total_score(strategy.insert_score() * (y as isize));
            matrix.set_cell(&Cursor { x: 0, y }, MatrixCell { score: score as i64, steps: StepMask::insert() });
            proof {
                matrix.lemma_wf();
            }
            y = y + 1;
        }
        let mut x: usize = 1;
        while x <= x_len
            invariant
                s == *strategy,
                b == magnitude(s),
                0 <= b,
                b * (x_len + y_len) <= isize::MAX,
                x_len + y_len + 2 <= isize::MAX,
                1 <= x <= x_len + 1,
                matrix.wf(),
                matrix.spec_width() == x_len + 1,
                matrix.spec_height() == y_len + 1,
                has_shape(matrix.grid(), (x_len + 1) as nat, (y_len + 1) as nat),
                forall|jj: int, ii: int|
                    0 <= jj <= y_len && 0 <= ii <= x_len ==> #[trigger] matrix.grid()[jj][ii] == if (ii == 0 && 1 <= jj) || (jj == 0 && 1 <= ii < x) {
                        sim_cell(s, x_len as nat, eq, ii as nat, jj as nat)
                    } else {
                        blank_cell()
                    },
            decreases x_len + 1 - x,
        {
            proof {
                lemma_scaled(s.spec_delete_score(), x as int, b);
                lemma_mul_le(b, x as int, x_len + y_len);
                s.lemma_total_shrinks(s.spec_delete_score() * x);
            }
            let score = strategy.total_score(strategy.delete_score() * (x as isize));
            matrix.set_cell(&Cursor { x, y: 0 }, MatrixCell { score: score as i64, steps: StepMask::delete() });
            proof {
                matrix.lemma_wf();
            }
            x = x + 1;
        }
    }

    /// Row 0 of the similarity scores: `i` deletions for column `i`.
    fn prepared_row<S: Strategy>(width: usize, strategy: &S, Ghost(eq): Ghost<Seq<bool>>) -> (r: Vec<isize>)
        requires
            1 <= width,
            magnitude(*strategy) * width <= isize::MAX,
            width <= isize::MAX,
        ensures
            r@.len() == width,
            forall|k: int| 0 <= k < width ==> #[trigger] r@[k] == sim(*strategy, (width - 1) as nat, eq, k as nat, 0),
    {
        let ghost s = *strategy;
        let ghost b = magnitude(s);
        let mut row: Vec<isize> = Vec::new();
        let mut i: usize = 0;
        while i < width
            invariant
                s == *strategy,
                b == magnitude(s),
                b * width <= isize::MAX,
                width <= isize::MAX,
                0 <= i <= width,
                row@.len() == i,
                forall|k: int| 0 <= k < i ==> #[trigger] row@[k] == sim(s, (width - 1) as nat, eq, k as nat, 0),
            decreases width - i,
        {
            proof {
                assert(0 <= b);
                lemma_scaled(s.spec_delete_score(), i as int, b);
                lemma_mul_le(b, i as int, width as int);
                s.lemma_total_shrinks(s.spec_delete_score() * i);
            }
            row.push(strategy.total_score(strategy.delete_score() * (i as isize)));
            i = i + 1;
        }
        row
    }

    fn prepared_highscores() -> (r: Highscores)
        ensures
            r.local.score == 0,
            r.local.cursor == (Cursor { x: 0, y: 0 }),
            r.global.score == 0,
            r.global.cursor == (Cursor { x: 0, y: 0 }),
    {
        Highscores {
            local: Highscore { score: 0, cursor: Cursor { x: 0, y: 0 } },
            global: Highscore { score: 0, cursor: Cursor { x: 0, y: 0 } },
        }
    }

    pub fn local_score(&self) -> (r: isize)
        ensures
            r == self.spec_local().0,
    {
        self.highscores.local.score
    }

    pub fn global_score(&self) -> (r: isize)
        ensures
            r == self.spec_global().0,
    {
        self.highscores.global.score
    }

    pub fn local_max(&self) -> (r: &Cursor)
        ensures
            *r == self.spec_local().1,
    {
        &self.highscores.local.cursor
    }

    pub fn global_max(&self) -> (r: &Cursor)
        ensures
            *r == self.spec_global().1,
    {
        &self.highscores.global.cursor
    }

    pub fn matrix(&self) -> (r: &T)
        ensures
            *r == self.spec_matrix(),
    {
        &self.matrix
    }

    /// The first local alignment, or `None` when the best local cell is a
    /// stop cell.
    pub fn local_alignment(&self) -> (r: Option<Alignment>)
        requires
            self.wf(),
        ensures
            first_alignment_spec(self.spec_matrix().grid(), self.spec_local().1, self.spec_local().0 as i64, r),
    {
        first_alignment(&self.matrix, self.highscores.local.cursor, self.highscores.local.score as i64)
    }

    /// The first global alignment, or `None` when the last cell is a stop cell.
    pub fn global_alignment(&self) -> (r: Option<Alignment>)
        requires
            self.wf(),
        ensures
            first_alignment_spec(self.spec_matrix().grid(), self.spec_global().1, self.spec_global().0 as i64, r),
    {
        first_alignment(&self.matrix, self.highscores.global.cursor, self.highscores.global.score as i64)
    }

    /// Every local alignment, lazily.
    pub fn local_alignments(&self) -> (r: Iter<'_, T>)
        requires
            self.wf(),
        ensures
            r.wf(),
            r.spec_matrix() == self.spec_matrix(),
            r.spec_terminal() == self.spec_local().1,
            r.spec_score() == self.spec_local().0 as i64,
            r.remaining() == crate::alignments::all_paths(self.spec_matrix().grid(), self.spec_local().1),
    {
        Iter::new(&self.matrix, self.highscores.local.cursor, self.highscores.local.score as i64)
    }

    /// Every global alignment, lazily.
    pub fn global_alignments(&self) -> (r: Iter<'_, T>)
        requires
            self.wf(),
        ensures
            r.wf(),
            r.spec_matrix() == self.spec_matrix(),
            r.spec_terminal() == self.spec_global().1,
            r.spec_score() == self.spec_global().0 as i64,
            r.remaining() == crate::alignments::all_paths(self.spec_matrix().grid(), self.spec_global().1),
    {
        Iter::new(&self.matrix, self.highscores.global.cursor, self.highscores.global.score as i64)
    }
}

/// The dense and the memory-mapped backends, given the same scoring and the
/// same equalities, build the same similarity matrix and find the same best
/// cells.
pub proof fn lemma_similarity_backends_agree<S: Strategy>(
    s: S,
    xl: nat,
    yl: nat,
    eq: Seq<bool>,
    dense: AlignmentSet<crate::matrix::Matrix>,
    mapped: AlignmentSet<crate::mapped::MappedMatrix>,
)
    requires
        dense.spec_matrix().grid() == sim_grid(s, xl, yl, eq),
        dense.spec_local() == local_rows(s, xl, eq, yl),
        dense.spec_global() == global_best(s, xl, yl, eq),
        mapped.spec_matrix().grid() == sim_grid(s, xl, yl, eq),
        mapped.spec_local() == local_rows(s, xl, eq, yl),
        mapped.spec_global() == global_best(s, xl, yl, eq),
    ensures
        forall|x: int, y: int|
            0 <= x <= xl && 0 <= y <= yl ==> #[trigger] dense.spec_matrix().grid()[y][x]
                == mapped.spec_matrix().grid()[y][x],
        dense.spec_local() == mapped.spec_local(),
        dense.spec_global() == mapped.spec_global(),
{
}

} // verus!
