use vstd::prelude::*;

use std::ops::RangeInclusive;

use crate::bounds::{hi, lo};
use crate::cell::{bounded, best_cell, stop_mask, MatrixCell};
use crate::cursor::Cursor;
use crate::alignment::Alignment;
use crate::alignments::{all_paths, cell_of, directions_wf, first_path, paths_from, prefixed, Alignments};
use crate::cursor::walk_backward;
use crate::matrix::{blank_cell, blank_grid, has_shape, AlignmentMatrix, Matrix, MatrixError};
use crate::penalty::Penalty;
use crate::step_mask::StepMask;

verus! {

/// Whether an alignment must span both sequences or may cover any part of them.
#[derive(Clone, Copy, Debug, PartialEq, Eq, Structural)]
pub enum AlignmentScope {
    Local,
    Global,
}

/// The scoring model of an alignment: the penalties, the half-width of the
/// diagonal band that is computed, the range scores are clamped into, and
/// whether the alignment is global or local.
///
/// Lower scores are better.
#[derive(Debug)]
pub struct Strategy {
    pub penalty: Penalty,
    pub window: usize,
    pub bounds: RangeInclusive<i64>,
    pub scope: AlignmentScope,
}

pub open spec fn delete_mask() -> StepMask {
    StepMask { align: false, delete: true, insert: false }
}

pub open spec fn insert_mask() -> StepMask {
    StepMask { align: false, delete: false, insert: true }
}

/// Where the cost of pairing `x[i]` with `y[j]` stands in a row-major table of
/// `m` columns.
pub open spec fn cost_index(m: nat, i: int, j: int) -> int {
    j * m + i
}

pub open spec fn abs(v: int) -> int {
    if v < 0 {
        -v
    } else {
        v
    }
}

impl Clone for Strategy {
    fn clone(&self) -> (r: Strategy)
        ensures
            r.penalty == self.penalty,
            r.window == self.window,
            lo(r.bounds) == lo(self.bounds),
            hi(r.bounds) == hi(self.bounds),
            r.scope == self.scope,
    {
        Strategy {
            penalty: self.penalty,
            window: self.window,
            bounds: RangeInclusive::new(*self.bounds.start(), *self.bounds.end()),
            scope: self.scope,
        }
    }
}

impl Strategy {
    /// The score of a boundary cell, given the score of the boundary cell
    /// before it: global alignment adds a gap, local alignment restarts at the
    /// upper bound.
    pub open spec fn spec_boundary_score(&self, prev: int) -> int {
        match self.scope {
            AlignmentScope::Global => prev + self.penalty.gap,
            AlignmentScope::Local => hi(self.bounds),
        }
    }

    /// Which of two candidate end cells wins: global alignment prefers the
    /// candidate that lies no further from the bottom-right corner, local
    /// alignment the one with the score that is no higher; ties go to `rhs`.
    pub open spec fn spec_pick_optimum(&self, lhs: (int, Cursor), rhs: (int, Cursor)) -> (
        int,
        Cursor,
    ) {
        match self.scope {
            AlignmentScope::Global => if rhs.1.x >= lhs.1.x && rhs.1.y >= lhs.1.y {
                rhs
            } else {
                lhs
            },
            AlignmentScope::Local => if rhs.0 <= lhs.0 {
                rhs
            } else {
                lhs
            },
        }
    }

    /// The half-width of the band for sequences of lengths `m` and `n`: the
    /// configured window, at most `m + 1`, and at least the difference of the
    /// two lengths.
    pub open spec fn band(&self, m: nat, n: nat) -> int {
        let columns = m + 1;
        let rows = n + 1;
        let w = if self.window < columns {
            self.window as int
        } else {
            columns as int
        };
        let skew: int = if columns <= rows {
            rows - columns
        } else {
            columns - rows
        };
        if w > skew {
            w
        } else {
            skew
        }
    }

    /// The first column of the band in row `y`.
    pub open spec fn band_start(&self, m: nat, n: nat, y: int) -> int {
        let w = self.band(m, n);
        let t = if w > y {
            w
        } else {
            y
        };
        if t - w > 1 {
            t - w
        } else {
            1
        }
    }

    /// One past the last column of the band in row `y`.
    pub open spec fn band_end(&self, m: nat, n: nat, y: int) -> int {
        let e = y + self.band(m, n) + 1;
        if e < m + 1 {
            e
        } else {
            m + 1 as int
        }
    }

    /// The running, unclamped score along row 0: `boundary_score` applied `x`
    /// times to zero. The cells of row 0 hold it clamped.
    pub open spec fn row0_score(&self, x: nat) -> int
        decreases x,
    {
        if x == 0 {
            0
        } else {
            self.spec_boundary_score(self.row0_score((x - 1) as nat))
        }
    }

    /// The running score of row 0 grows by at most `2^63` per cell.
    pub proof fn lemma_row0_bound(&self, x: nat)
        ensures
            abs(self.row0_score(x)) <= x * 0x8000_0000_0000_0000,
        decreases x,
    {
        if x > 0 {
            self.lemma_row0_bound((x - 1) as nat);
        }
    }

    /// The cell `(x, y)` is computed by the forward pass.
    pub open spec fn in_band(&self, m: nat, n: nat, x: int, y: int) -> bool {
        1 <= y <= n && self.band_start(m, n, y) <= x < self.band_end(m, n, y)
    }

    /// The cell at `(x, y)` after the forward pass over sequences of lengths `m`
    /// and `n`, where `costs[(y - 1) * m + (x - 1)]` is the cost of pairing
    /// `x[x - 1]` with `y[y - 1]`.
    pub open spec fn cell_at(&self, m: nat, n: nat, costs: Seq<i64>, x: nat, y: nat) -> MatrixCell
        decreases x + y,
    {
        if x == 0 && y == 0 {
            bounded(0, stop_mask(), lo(self.bounds), hi(self.bounds))
        } else if y == 0 {
            bounded(self.row0_score(x), delete_mask(), lo(self.bounds), hi(self.bounds))
        } else if x == 0 {
            bounded(
                self.spec_boundary_score(self.cell_at(m, n, costs, 0, (y - 1) as nat).score as int),
                insert_mask(),
                lo(self.bounds),
                hi(self.bounds),
            )
        } else if self.in_band(m, n, x as int, y as int) {
            let c = costs[cost_index(m, (x - 1) as int, (y - 1) as int)] as int;
            let p = if c <= 0 {
                self.penalty.matched as int
            } else {
                self.penalty.mismatch as int
            };
            best_cell(
                self.cell_at(m, n, costs, (x - 1) as nat, (y - 1) as nat).score + abs(c) * p,
                self.cell_at(m, n, costs, (x - 1) as nat, y).score + self.penalty.gap,
                self.cell_at(m, n, costs, x, (y - 1) as nat).score + self.penalty.gap,
                lo(self.bounds),
                hi(self.bounds),
            )
        } else {
            blank_cell()
        }
    }

    /// The whole matrix after the forward pass, row by row.
    pub open spec fn grid_of(&self, m: nat, n: nat, costs: Seq<i64>) -> Seq<Seq<MatrixCell>> {
        Seq::new(n + 1, |y: int| Seq::new(m + 1, |x: int| self.cell_at(m, n, costs, x as nat, y as nat)))
    }

    /// The best candidate after the band columns before `x` in row `y` have
    /// been offered to `pick_optimum`, starting from `acc`.
    pub open spec fn scan_row(
        &self,
        m: nat,
        n: nat,
        costs: Seq<i64>,
        acc: (int, Cursor),
        y: int,
        x: int,
    ) -> (int, Cursor)
        decreases x,
    {
        if x <= self.band_start(m, n, y) || x <= 0 {
            acc
        } else {
            self.spec_pick_optimum(
                self.scan_row(m, n, costs, acc, y, x - 1),
                (
                    self.cell_at(m, n, costs, (x - 1) as nat, y as nat).score as int,
                    Cursor { x: (x - 1) as usize, y: y as usize },
                ),
            )
        }
    }

    /// The best candidate after the bands of rows `1..=y`.
    pub open spec fn scan_rows(&self, m: nat, n: nat, costs: Seq<i64>, y: int) -> (int, Cursor)
        decreases y,
    {
        if y <= 0 {
            (hi(self.bounds), Cursor { x: 1, y: 1 })
        } else {
            self.scan_row(
                m,
                n,
                costs,
                self.scan_rows(m, n, costs, y - 1),
                y,
                self.band_end(m, n, y),
            )
        }
    }

    /// The cell where backtracking starts: the winner among the computed
    /// cells, or the bottom-right corner when no cell is computed because a
    /// sequence is empty.
    pub open spec fn terminal(&self, m: nat, n: nat, costs: Seq<i64>) -> Cursor {
        if m == 0 || n == 0 {
            Cursor { x: m as usize, y: n as usize }
        } else {
            self.scan_rows(m, n, costs, n as int).1
        }
    }
}

/// A cost times a penalty stays within `2^126` in magnitude.
proof fn lemma_product_bound(a: int, p: int)
    requires
        0 <= a <= 0x8000_0000_0000_0000,
        -0x8000_0000_0000_0000 <= p <= 0x8000_0000_0000_0000,
    ensures
        -0x4000_0000_0000_0000_0000_0000_0000_0000 <= a * p <= 0x4000_0000_0000_0000_0000_0000_0000_0000,
{
    assert(-0x4000_0000_0000_0000_0000_0000_0000_0000 <= a * p <= 0x4000_0000_0000_0000_0000_0000_0000_0000) by (nonlinear_arith)
        requires
            0 <= a <= 0x8000_0000_0000_0000,
            -0x8000_0000_0000_0000 <= p <= 0x8000_0000_0000_0000,
    ;
}

pub proof fn lemma_factor_fits(a: int, b: int)
    requires
        0 <= a,
        1 <= b,
        a * b <= usize::MAX,
    ensures
        a <= usize::MAX,
{
    assert(a <= a * b) by (nonlinear_arith)
        requires
            0 <= a,
            1 <= b,
    ;
}

impl Strategy {
    pub fn new(penalty: Penalty, window: usize, bounds: RangeInclusive<i64>, scope: AlignmentScope) -> (r: Strategy)
        ensures
            r.penalty == penalty,
            r.window == window,
            r.bounds == bounds,
            r.scope == scope,
    {
        Strategy { penalty, window, bounds, scope }
    }

    /// A global strategy with unit costs: a match earns one, a mismatch or a gap
    /// costs one, no band and no clamping.
    pub fn needleman_wunsch() -> (r: Strategy)
        ensures
            r.penalty == (Penalty { matched: -1i64, mismatch: 1, gap: 1 }),
            r.window == usize::MAX,
            lo(r.bounds) == i64::MIN,
            hi(r.bounds) == i64::MAX,
            r.scope == AlignmentScope::Global,
    {
        let penalty = Penalty { matched: -1, mismatch: 1, gap: 1 };
        Strategy::new(penalty, usize::MAX, RangeInclusive::new(i64::MIN, i64::MAX), AlignmentScope::Global)
    }

    /// A local strategy with unit costs, where scores above zero are cut off.
    pub fn smith_waterman() -> (r: Strategy)
        ensures
            r.penalty == (Penalty { matched: -1i64, mismatch: 1, gap: 1 }),
            r.window == usize::MAX,
            lo(r.bounds) == i64::MIN,
            hi(r.bounds) == 0,
            r.scope == AlignmentScope::Local,
    {
        let penalty = Penalty { matched: -1, mismatch: 1, gap: 1 };
        Strategy::new(penalty, usize::MAX, RangeInclusive::new(i64::MIN, 0), AlignmentScope::Local)
    }

    /// The edit distance: a match is free, a mismatch or a gap costs one.
    pub fn levenshtein() -> (r: Strategy)
        ensures
            r.penalty == (Penalty { matched: 0, mismatch: 1, gap: 1 }),
            r.window == usize::MAX,
            lo(r.bounds) == i64::MIN,
            hi(r.bounds) == i64::MAX,
            r.scope == AlignmentScope::Global,
    {
        let penalty = Penalty { matched: 0, mismatch: 1, gap: 1 };
        Strategy::new(penalty, usize::MAX, RangeInclusive::new(i64::MIN, i64::MAX), AlignmentScope::Global)
    }

    /// Time warping over a distance: with the distance of two elements as
    /// their cost, pairing them adds that distance and a gap adds one, and
    /// the cheapest monotone path wins.
    pub fn dynamic_time_warping() -> (r: Strategy)
        ensures
            r.penalty == (Penalty { matched: 0, mismatch: 1, gap: 1 }),
            r.window == usize::MAX,
            lo(r.bounds) == i64::MIN,
            hi(r.bounds) == i64::MAX,
            r.scope == AlignmentScope::Global,
    {
        let penalty = Penalty { matched: 0, mismatch: 1, gap: 1 };
        Strategy::new(penalty, usize::MAX, RangeInclusive::new(i64::MIN, i64::MAX), AlignmentScope::Global)
    }

    pub fn penalty(&self) -> (r: &Penalty)
        ensures
            *r == self.penalty,
    {
        &self.penalty
    }

    pub fn window(&self) -> (r: usize)
        ensures
            r == self.window,
    {
        self.window
    }

    pub fn bounds(&self) -> (r: &RangeInclusive<i64>)
        ensures
            *r == self.bounds,
    {
        &self.bounds
    }

    /// The unclamped score of a boundary cell whose predecessor scored `prev`.
    pub fn boundary_score(&self, prev: i128) -> (r: i128)
        requires
            -0x7FFF_FFFF_FFFF_FFFF_0000_0000_0000_0000 <= prev <= 0x7FFF_FFFF_FFFF_FFFF_0000_0000_0000_0000,
        ensures
            r == self.spec_boundary_score(prev as int),
    {
        match self.scope {
            AlignmentScope::Global => prev + self.penalty.gap as i128,
            AlignmentScope::Local => *self.bounds.end() as i128,
        }
    }

    /// The winner of two candidate end cells.
    pub fn pick_optimum(&self, lhs: (i64, Cursor), rhs: (i64, Cursor)) -> (r: (i64, Cursor))
        ensures
            (r.0 as int, r.1) == self.spec_pick_optimum((lhs.0 as int, lhs.1), (rhs.0 as int, rhs.1)),
    {
        match self.scope {
            AlignmentScope::Global => if rhs.1.x >= lhs.1.x && rhs.1.y >= lhs.1.y {
                rhs
            } else {
                lhs
            },
            AlignmentScope::Local => if rhs.0 <= lhs.0 {
                rhs
            } else {
                lhs
            },
        }
    }

    /// The half-width of the band for a matrix of `columns` by `rows` cells.
    fn band_width(&self, columns: usize, rows: usize) -> (r: usize)
        requires
            1 <= columns,
            1 <= rows,
        ensures
            r == self.band((columns - 1) as nat, (rows - 1) as nat),
    {
        let w = if self.window < columns {
            self.window
        } else {
            columns
        };
        let skew = if columns <= rows {
            rows - columns
        } else {
            columns - rows
        };
        if w > skew {
            w
        } else {
            skew
        }
    }

    /// The columns `start..end` of the band in row `y`.
    fn band_range(&self, columns: usize, Ghost(n): Ghost<nat>, band: usize, y: usize) -> (r: (usize, usize))
        requires
            1 <= columns,
            band == self.band((columns - 1) as nat, n),
        ensures
            r.0 == self.band_start((columns - 1) as nat, n, y as int),
            r.1 == self.band_end((columns - 1) as nat, n, y as int),
            r.0 >= 1,
            r.1 <= columns,
    {
        let t = if band > y {
            band
        } else {
            y
        };
        let start = if t - band > 1 {
            t - band
        } else {
            1
        };
        let end = if y >= columns {
            columns
        } else if columns - y - 1 > band {
            y + band + 1
        } else {
            columns
        };
        (start, end)
    }

    /// Runs the forward pass over a blank matrix of `m + 1` columns and `n + 1`
    /// rows, where `costs[(y - 1) * m + (x - 1)]` is the cost of pairing
    /// `x[x - 1]` with `y[y - 1]`, and returns the cell where backtracking starts.
    ///
    /// Row 0 and column 0 are seeded through `boundary_score`, the cells of the
    /// band are computed from their three neighbours, and every other cell stays
    /// blank.
    pub fn fill<M: AlignmentMatrix>(&self, matrix: &mut M, m: usize, n: usize, costs: &Vec<i64>) -> (r: Cursor)
        requires
            old(matrix).wf(),
            old(matrix).spec_width() == m + 1,
            old(matrix).spec_height() == n + 1,
            old(matrix).grid() == blank_grid((m + 1) as nat, (n + 1) as nat),
            costs@.len() == m * n,
        ensures
            final(matrix).wf(),
            final(matrix).spec_width() == m + 1,
            final(matrix).spec_height() == n + 1,
            final(matrix).grid() == self.grid_of(m as nat, n as nat, costs@),
            r == self.terminal(m as nat, n as nat, costs@),
    {
        proof {
            matrix.lemma_wf();
            lemma_factor_fits((m + 1) as int, (n + 1) as int);
            lemma_factor_fits((n + 1) as int, (m + 1) as int);
            assert(m * n <= (m + 1) * (n + 1)) by (nonlinear_arith);
        }
        let columns = m + 1;
        let rows = n + 1;
        let ghost mm = m as nat;
        let ghost nn = n as nat;
        let ghost cs = costs@;
        let band = self.band_width(columns, rows);

        let origin = MatrixCell::with_bounds(0, StepMask::stop(), &self.bounds);
        matrix.set_cell(&Cursor { x: 0, y: 0 }, origin);
        let mut x: usize = 1;
        let mut running: i128 = 0;
        while x < columns
            invariant
                1 <= x <= columns,
                columns == m + 1,
                rows == n + 1,
                mm == m,
                nn == n,
                running == self.row0_score((x - 1) as nat),
                matrix.wf(),
                matrix.spec_width() == columns,
                matrix.spec_height() == rows,
                has_shape(matrix.grid(), columns as nat, rows as nat),
                forall|yy: int, xx: int|
                    0 <= yy < rows && 0 <= xx < columns ==> #[trigger] matrix.grid()[yy][xx] == if yy
                        == 0 && xx < x {
                        self.cell_at(mm, nn, cs, xx as nat, yy as nat)
                    } else {
                        blank_cell()
                    },
            decreases columns - x,
        {
            proof {
                self.lemma_row0_bound((x - 1) as nat);
                assert(usize::MAX <= 0xFFFF_FFFF_FFFF_FFFF);
                assert((x - 1) * 0x8000_0000_0000_0000 <= 0x7FFF_FFFF_FFFF_FFFF_0000_0000_0000_0000) by (nonlinear_arith)
                    requires
                        x - 1 <= 0xFFFF_FFFF_FFFF_FFFE,
                ;
            }
            running = self.boundary_score(running);
            let cell = MatrixCell::with_bounds(running, StepMask::delete(), &self.bounds);
            matrix.set_cell(&Cursor { x, y: 0 }, cell);
            proof {
                matrix.lemma_wf();
            }
            x = x + 1;
        }

        let mut optimum: (i64, Cursor) = (*self.bounds.end(), Cursor { x: 1, y: 1 });
        let mut y: usize = 1;
        while y < rows
            invariant
                1 <= y <= rows,
                columns == m + 1,
                rows == n + 1,
                mm == m,
                nn == n,
                band == self.band(mm, nn),
                cs == costs@,
                costs@.len() == m * n,
                m * n <= usize::MAX,
                matrix.wf(),
                matrix.spec_width() == columns,
                matrix.spec_height() == rows,
                has_shape(matrix.grid(), columns as nat, rows as nat),
                forall|yy: int, xx: int|
                    0 <= yy < rows && 0 <= xx < columns ==> #[trigger] matrix.grid()[yy][xx] == if yy
                        < y {
                        self.cell_at(mm, nn, cs, xx as nat, yy as nat)
                    } else {
                        blank_cell()
                    },
                (optimum.0 as int, optimum.1) == self.scan_rows(mm, nn, cs, y - 1),
            decreases rows - y,
        {
            let prev = matrix.cell(&Cursor { x: 0, y: y - 1 });
            let cell = MatrixCell::with_bounds(self.boundary_score(prev.score as i128), StepMask::insert(), &self.bounds);
            matrix.set_cell(&Cursor { x: 0, y }, cell);
            proof {
                matrix.lemma_wf();
            }
            let (start, end) = self.band_range(columns, Ghost(nn), band, y);
            let mut x: usize = start;
            let ghost acc = (optimum.0 as int, optimum.1);
            while x < end
                invariant
                    1 <= y < rows,
                    start <= x,
                    x <= end || end <= start,
                    x == start || x <= end,
                    start == self.band_start(mm, nn, y as int),
                    end == self.band_end(mm, nn, y as int),
                    end <= columns,
                    start >= 1,
                    m * n <= usize::MAX,
                    columns == m + 1,
                    rows == n + 1,
                    mm == m,
                    nn == n,
                    band == self.band(mm, nn),
                    cs == costs@,
                    costs@.len() == m * n,
                    matrix.wf(),
                    matrix.spec_width() == columns,
                    matrix.spec_height() == rows,
                    has_shape(matrix.grid(), columns as nat, rows as nat),
                    forall|yy: int, xx: int|
                        0 <= yy < rows && 0 <= xx < columns ==> #[trigger] matrix.grid()[yy][xx]
                            == if yy < y || (yy == y && xx < x) {
                            self.cell_at(mm, nn, cs, xx as nat, yy as nat)
                        } else {
                            blank_cell()
                        },
                    acc == self.scan_rows(mm, nn, cs, y - 1),
                    (optimum.0 as int, optimum.1) == self.scan_row(mm, nn, cs, acc, y as int, x as int),
                decreases end - x,
            {
                let diag = matrix.cell(&Cursor { x: x - 1, y: y - 1 });
                let up = matrix.cell(&Cursor { x, y: y - 1 });
                let left = matrix.cell(&Cursor { x: x - 1, y });
                proof {
                    crate::matrix::lemma_offset_in_range((x - 1) as int, (y - 1) as int, m as int, n as int);
                }
                let c = costs[(y - 1) * m + (x - 1)];
                let a: i128 = if c < 0 {
                    -(c as i128)
                } else {
                    c as i128
                };
                let p = if c <= 0 {
                    self.penalty.matched
                } else {
                    self.penalty.mismatch
                };
                proof {
                    lemma_product_bound(a as int, p as int);
                }
                let align = diag.score as i128 + a * p as i128;
                let delete = left.score as i128 + self.penalty.gap as i128;
                let insert = up.score as i128 + self.penalty.gap as i128;
                let cell = MatrixCell::from_steps(align, delete, insert, &self.bounds);
                let cursor = Cursor { x, y };
                matrix.set_cell(&cursor, cell);
                proof {
                    matrix.lemma_wf();
                    assert(self.in_band(mm, nn, x as int, y as int));
                    assert(cell == self.cell_at(mm, nn, cs, x as nat, y as nat));
                }
                optimum = self.pick_optimum(optimum, (cell.score, cursor));
                x = x + 1;
            }
            proof {
                assert forall|yy: int, xx: int|
                    0 <= yy < rows && 0 <= xx < columns implies #[trigger] matrix.grid()[yy][xx]
                        == if yy < y + 1 {
                        self.cell_at(mm, nn, cs, xx as nat, yy as nat)
                    } else {
                        blank_cell()
                    } by {
                    if yy == y && xx >= x {
                        assert(!self.in_band(mm, nn, xx, yy));
                    }
                }
            }
            y = y + 1;
        }
        proof {
            assert(matrix.grid() =~= self.grid_of(mm, nn, cs)) by {
                assert forall|yy: int| 0 <= yy < rows implies #[trigger] matrix.grid()[yy] =~= self.grid_of(mm, nn, cs)[yy] by {
                    assert forall|xx: int| 0 <= xx < columns implies #[trigger] matrix.grid()[yy][xx] == self.grid_of(mm, nn, cs)[yy][xx] by {
                    }
                }
            }
        }
        if m == 0 || n == 0 {
            Cursor { x: m, y: n }
        } else {
            optimum.1
        }
    }
}

impl Strategy {
    /// Every direction that the forward pass records leads back into the matrix.
    pub proof fn lemma_grid_directions(&self, m: nat, n: nat, costs: Seq<i64>)
        ensures
            directions_wf(self.grid_of(m, n, costs), m + 1, n + 1),
    {
        let g = self.grid_of(m, n, costs);
        assert forall|y: int, x: int| 0 <= y < n + 1 && 0 <= x < m + 1 implies {
            let s = (#[trigger] g[y][x]).steps;
            &&& s.align ==> x >= 1 && y >= 1
            &&& s.delete ==> x >= 1
            &&& s.insert ==> y >= 1
        } by {
            assert(g[y][x] == self.cell_at(m, n, costs, x as nat, y as nat));
        }
    }

    proof fn lemma_scan_row_in(&self, m: nat, n: nat, costs: Seq<i64>, acc: (int, Cursor), y: int, x: int)
        requires
            acc.1.x <= m,
            acc.1.y <= n,
            1 <= y <= n,
            x <= self.band_end(m, n, y),
        ensures
            self.scan_row(m, n, costs, acc, y, x).1.x <= m,
            self.scan_row(m, n, costs, acc, y, x).1.y <= n,
        decreases x,
    {
        if !(x <= self.band_start(m, n, y) || x <= 0) {
            self.lemma_scan_row_in(m, n, costs, acc, y, x - 1);
        }
    }

    proof fn lemma_scan_rows_in(&self, m: nat, n: nat, costs: Seq<i64>, y: int)
        requires
            1 <= m,
            1 <= n,
            y <= n,
        ensures
            self.scan_rows(m, n, costs, y).1.x <= m,
            self.scan_rows(m, n, costs, y).1.y <= n,
        decreases y,
    {
        if y > 0 {
            self.lemma_scan_rows_in(m, n, costs, y - 1);
            self.lemma_scan_row_in(m, n, costs, self.scan_rows(m, n, costs, y - 1), y, self.band_end(m, n, y));
        }
    }

    /// The cell where backtracking starts lies inside the matrix.
    pub proof fn lemma_terminal_in(&self, m: nat, n: nat, costs: Seq<i64>)
        ensures
            self.terminal(m, n, costs).x <= m,
            self.terminal(m, n, costs).y <= n,
    {
        if m != 0 && n != 0 {
            self.lemma_scan_rows_in(m, n, costs, n as int);
        }
    }

    /// Aligns sequences of lengths `m` and `n` in a fresh matrix of backend `M`,
    /// where `costs[(y - 1) * m + (x - 1)]` is the cost of pairing `x[x - 1]`
    /// with `y[y - 1]`. Fails only where `M` cannot set up its storage.
    pub fn alignments_in<M: AlignmentMatrix>(&self, m: usize, n: usize, costs: &Vec<i64>) -> (r: Result<Alignments<M>, MatrixError>)
        requires
            costs@.len() == m * n,
            (m + 1) * (n + 1) <= usize::MAX,
        ensures
            r matches Ok(a) ==> {
                &&& a.wf()
                &&& a.spec_matrix().spec_width() == m + 1
                &&& a.spec_matrix().spec_height() == n + 1
                &&& a.spec_matrix().grid() == self.grid_of(m as nat, n as nat, costs@)
                &&& a.spec_cursor() == self.terminal(m as nat, n as nat, costs@)
            },
            M::infallible() ==> r is Ok,
    {
        proof {
            lemma_factor_fits((m + 1) as int, (n + 1) as int);
            lemma_factor_fits((n + 1) as int, (m + 1) as int);
        }
        let mut matrix = match M::new(m + 1, n + 1) {
            Ok(matrix) => matrix,
            Err(e) => {
                return Err(e);
            },
        };
        let cursor = self.fill(&mut matrix, m, n, costs);
        proof {
            self.lemma_grid_directions(m as nat, n as nat, costs@);
            self.lemma_terminal_in(m as nat, n as nat, costs@);
        }
        Ok(Alignments::new(matrix, cursor))
    }

    /// `alignments_in` with the dense backend, which cannot fail.
    pub fn alignments_from_costs(&self, m: usize, n: usize, costs: &Vec<i64>) -> (r: Alignments<Matrix>)
        requires
            costs@.len() == m * n,
            (m + 1) * (n + 1) <= usize::MAX,
        ensures
            r.wf(),
            r.spec_matrix().spec_width() == m + 1,
            r.spec_matrix().spec_height() == n + 1,
            r.spec_matrix().grid() == self.grid_of(m as nat, n as nat, costs@),
            r.spec_cursor() == self.terminal(m as nat, n as nat, costs@),
    {
        proof {
            lemma_factor_fits((m + 1) as int, (n + 1) as int);
            lemma_factor_fits((n + 1) as int, (m + 1) as int);
        }
        let mut matrix = Matrix::new(m + 1, n + 1).unwrap();
        let cursor = self.fill(&mut matrix, m, n, costs);
        proof {
            self.lemma_grid_directions(m as nat, n as nat, costs@);
            self.lemma_terminal_in(m as nat, n as nat, costs@);
        }
        Alignments::new(matrix, cursor)
    }
}

impl Strategy {
    /// `costs` holds, row by row, what `f` returned for each pair of elements
    /// whose cell lies in the band; the other entries are never read.
    pub open spec fn band_costs_by<T, F: Fn(&T, &T) -> i64>(&self, f: F, x: Seq<T>, y: Seq<T>, costs: Seq<i64>) -> bool {
        &&& costs.len() == x.len() * y.len()
        &&& forall|i: int, j: int|
            0 <= i < x.len() && 0 <= j < y.len() && self.in_band(x.len(), y.len(), i + 1, j + 1)
                ==> #[trigger] f.ensures((&x[i], &y[j]), costs[cost_index(x.len(), i, j)])
    }

    /// The cost of every pair of elements whose cell lies in the band, one row
    /// per element of `y`; `f` is called for those pairs only, and the other
    /// entries are zero.
    pub fn band_costs<T, F: Fn(&T, &T) -> i64>(&self, x: &[T], y: &[T], f: &F) -> (r: Vec<i64>)
        requires
            (x@.len() + 1) * (y@.len() + 1) <= usize::MAX,
            forall|i: int, j: int| 0 <= i < x@.len() && 0 <= j < y@.len() ==> #[trigger] f.requires((&x@[i], &y@[j])),
        ensures
            self.band_costs_by(*f, x@, y@, r@),
    {
        let m = x.len();
        let n = y.len();
        proof {
            lemma_factor_fits((m + 1) as int, (n + 1) as int);
            assert((n + 1) * (m + 1) == (m + 1) * (n + 1)) by (nonlinear_arith);
            lemma_factor_fits((n + 1) as int, (m + 1) as int);
            assert(m * n <= (m + 1) * (n + 1)) by (nonlinear_arith);
        }
        let ghost mm = m as nat;
        let ghost nn = n as nat;
        let band = self.band_width(m + 1, n + 1);
        let mut costs: Vec<i64> = Vec::new();
        let mut j: usize = 0;
        while j < n
            invariant
                m == x@.len(),
                n == y@.len(),
                mm == m,
                nn == n,
                m + 1 <= usize::MAX,
                band == self.band(mm, nn),
                m * n <= usize::MAX,
                0 <= j <= n,
                costs@.len() == j * m,
                forall|i: int, j: int| 0 <= i < x@.len() && 0 <= j < y@.len() ==> #[trigger] f.requires((&x@[i], &y@[j])),
                forall|ii: int, jj: int|
                    0 <= ii < m && 0 <= jj < j && self.in_band(mm, nn, ii + 1, jj + 1) ==> #[trigger] f.ensures((&x@[ii], &y@[jj]), costs@[cost_index(m as nat, ii, jj)]),
            decreases n - j,
        {
            proof {
                assert((j + 1) * m <= m * n) by (nonlinear_arith)
                    requires
                        j < n,
                ;
                assert((j + 1) * m == j * m + m) by (nonlinear_arith);
            }
            let (start, end) = self.band_range(m + 1, Ghost(nn), band, j + 1);
            let mut i: usize = 0;
            while i < m
                invariant
                    m == x@.len(),
                    n == y@.len(),
                    mm == m,
                    nn == n,
                    0 <= i <= m,
                    j < n,
                    start == self.band_start(mm, nn, j + 1),
                    end == self.band_end(mm, nn, j + 1),
                    j * m + m <= usize::MAX,
                    costs@.len() == j * m + i,
                    forall|i: int, j: int| 0 <= i < x@.len() && 0 <= j < y@.len() ==> #[trigger] f.requires((&x@[i], &y@[j])),
                    forall|ii: int, jj: int|
                        ((0 <= ii < m && 0 <= jj < j) || (0 <= ii < i && jj == j)) && self.in_band(mm, nn, ii + 1, jj + 1) ==> #[trigger] f.ensures((&x@[ii], &y@[jj]), costs@[cost_index(m as nat, ii, jj)]),
                decreases m - i,
            {
                let c = if start <= i + 1 && i + 1 < end {
                    f(&x[i], &y[j])
                } else {
                    0
                };
                costs.push(c);
                proof {
                    assert forall|ii: int, jj: int|
                        ((0 <= ii < m && 0 <= jj < j) || (0 <= ii <= i && jj == j)) && self.in_band(mm, nn, ii + 1, jj + 1) implies #[trigger] f.ensures((&x@[ii], &y@[jj]), costs@[cost_index(m as nat, ii, jj)]) by {
                        if jj < j {
                            assert(jj * m + ii < j * m) by (nonlinear_arith)
                                requires
                                    jj < j,
                                    ii < m,
                            ;
                        }
                    }
                }
                i = i + 1;
            }
            proof {
                assert((j + 1) * m == j * m + m) by (nonlinear_arith);
            }
            j = j + 1;
        }
        proof {
            assert(j * m == m * n) by (nonlinear_arith)
                requires
                    j == n,
            ;
        }
        costs
    }
}

impl Strategy {
    /// Aligns `x` with `y` in the dense backend, pricing each pair of
    /// elements with `f`.
    pub fn alignments<T, F: Fn(&T, &T) -> i64>(&self, x: &[T], y: &[T], f: F) -> (r: Alignments<Matrix>)
        requires
            (x@.len() + 1) * (y@.len() + 1) <= usize::MAX,
            forall|i: int, j: int| 0 <= i < x@.len() && 0 <= j < y@.len() ==> #[trigger] f.requires((&x@[i], &y@[j])),
        ensures
            r.wf(),
            exists|costs: Seq<i64>| {
                &&& #[trigger] self.band_costs_by(f, x@, y@, costs)
                &&& r.spec_matrix().grid() == self.grid_of(x@.len(), y@.len(), costs)
                &&& r.spec_cursor() == self.terminal(x@.len(), y@.len(), costs)
            },
    {
        let costs = self.band_costs(x, y, &f);
        self.alignments_from_costs(x.len(), y.len(), &costs)
    }
}

impl Strategy {
    /// The first optimal alignment of `x` with `y`, as `Alignments::alignment`
    /// finds it, or `None` when the start cell is itself a stop cell.
    pub fn alignment<T, F: Fn(&T, &T) -> i64>(&self, x: &[T], y: &[T], f: F) -> (r: Option<Alignment>)
        requires
            (x@.len() + 1) * (y@.len() + 1) <= usize::MAX,
            forall|i: int, j: int| 0 <= i < x@.len() && 0 <= j < y@.len() ==> #[trigger] f.requires((&x@[i], &y@[j])),
        ensures
            exists|costs: Seq<i64>| {
                let g = self.grid_of(x@.len(), y@.len(), costs);
                let t = self.terminal(x@.len(), y@.len(), costs);
                let path = first_path(g, t);
                &&& #[trigger] self.band_costs_by(f, x@, y@, costs)
                &&& (r is None <==> path.len() == 0)
                &&& (r is None <==> all_paths(g, t).len() == 0)
                &&& r matches Some(a) ==> {
                    &&& a.wf()
                    &&& a.spec_steps() == path.reverse()
                    &&& a.spec_steps().reverse() == all_paths(g, t)[0]
                    &&& a.spec_origin() == walk_backward(t, path)
                    &&& a.destination() == t
                    &&& a.spec_score() == cell_of(g, t).score
                }
            },
    {
        let all = self.alignments(x, y, f);
        all.alignment()
    }

    /// The score of the first optimal alignment of `x` with `y`, or `None`
    /// when there is none.
    pub fn distance<T, F: Fn(&T, &T) -> i64>(&self, x: &[T], y: &[T], f: F) -> (r: Option<i64>)
        requires
            (x@.len() + 1) * (y@.len() + 1) <= usize::MAX,
            forall|i: int, j: int| 0 <= i < x@.len() && 0 <= j < y@.len() ==> #[trigger] f.requires((&x@[i], &y@[j])),
        ensures
            exists|costs: Seq<i64>| {
                let g = self.grid_of(x@.len(), y@.len(), costs);
                let t = self.terminal(x@.len(), y@.len(), costs);
                &&& #[trigger] self.band_costs_by(f, x@, y@, costs)
                &&& r == if first_path(g, t).len() == 0 {
                    None
                } else {
                    Some(cell_of(g, t).score)
                }
            },
    {
        match self.alignment(x, y, f) {
            Some(a) => Some(a.score()),
            None => None,
        }
    }
}

impl Strategy {
    /// Every cell that the forward pass fills, on the boundary or inside the
    /// band, holds a score within the bounds, for global and local strategies
    /// alike.
    pub proof fn lemma_scores_within_bounds(&self, m: nat, n: nat, costs: Seq<i64>, x: nat, y: nat)
        requires
            lo(self.bounds) <= hi(self.bounds),
            x <= m,
            y <= n,
            x == 0 || y == 0 || self.in_band(m, n, x as int, y as int),
        ensures
            lo(self.bounds) <= self.cell_at(m, n, costs, x, y).score <= hi(self.bounds),
    {
        if x == 0 && y == 0 {
            crate::cell::lemma_bounded_within(0, stop_mask(), lo(self.bounds), hi(self.bounds));
        } else if y == 0 {
            crate::cell::lemma_bounded_within(
                self.row0_score(x),
                delete_mask(),
                lo(self.bounds),
                hi(self.bounds),
            );
        } else if x == 0 {
            crate::cell::lemma_bounded_within(
                self.spec_boundary_score(self.cell_at(m, n, costs, 0, (y - 1) as nat).score as int),
                insert_mask(),
                lo(self.bounds),
                hi(self.bounds),
            );
        }
    }
}

impl Strategy {
    /// After the forward pass, every cell on the boundary or inside the band
    /// holds a score within the bounds.
    pub proof fn lemma_grid_within_bounds(&self, m: nat, n: nat, costs: Seq<i64>)
        requires
            lo(self.bounds) <= hi(self.bounds),
        ensures
            forall|x: int, y: int|
                0 <= x <= m && 0 <= y <= n && (x == 0 || y == 0 || self.in_band(m, n, x, y)) ==> lo(
                    self.bounds,
                ) <= (#[trigger] self.grid_of(m, n, costs)[y][x]).score <= hi(self.bounds),
    {
        assert forall|x: int, y: int|
            0 <= x <= m && 0 <= y <= n && (x == 0 || y == 0 || self.in_band(m, n, x, y)) implies lo(
                self.bounds,
            ) <= (#[trigger] self.grid_of(m, n, costs)[y][x]).score <= hi(self.bounds) by {
            self.lemma_scores_within_bounds(m, n, costs, x as nat, y as nat);
        }
    }

    /// A global alignment always starts its backtrace at the bottom-right
    /// corner, so every global alignment ends having consumed both sequences.
    pub proof fn lemma_global_terminal_is_corner(&self, m: nat, n: nat, costs: Seq<i64>)
        requires
            self.scope == AlignmentScope::Global,
            m < usize::MAX,
            n < usize::MAX,
        ensures
            self.terminal(m, n, costs) == (Cursor { x: m as usize, y: n as usize }),
    {
        if m != 0 && n != 0 {
            let acc = self.scan_rows(m, n, costs, n - 1);
            self.lemma_scan_rows_in(m, n, costs, n - 1);
            assert(self.band_end(m, n, n as int) == m + 1);
            assert(self.band_start(m, n, n as int) <= m);
            self.lemma_scan_row_in(m, n, costs, acc, n as int, m as int);
            let lhs = self.scan_row(m, n, costs, acc, n as int, m as int);
            let rhs = (self.cell_at(m, n, costs, m, n).score as int, Cursor { x: m as usize, y: n as usize });
            assert(self.scan_rows(m, n, costs, n as int) == self.scan_row(m, n, costs, acc, n as int, (m + 1) as int));
            assert(self.scan_row(m, n, costs, acc, n as int, (m + 1) as int) == self.spec_pick_optimum(lhs, rhs));
        }
    }
}

impl Strategy {
    proof fn lemma_first_column(&self, n: nat, costs: Seq<i64>, j: nat)
        requires
            self.scope == AlignmentScope::Global,
            0 < self.penalty.gap,
            lo(self.bounds) < 0,
            n * self.penalty.gap < hi(self.bounds),
            j <= n,
        ensures
            self.cell_at(0, n, costs, 0, j) == if j == 0 {
                MatrixCell { score: 0, steps: stop_mask() }
            } else {
                MatrixCell { score: (j * self.penalty.gap) as i64, steps: insert_mask() }
            },
        decreases j,
    {
        if j > 0 {
            self.lemma_first_column(n, costs, (j - 1) as nat);
            assert((j - 1) * self.penalty.gap + self.penalty.gap == j * self.penalty.gap) by (nonlinear_arith);
            assert(j * self.penalty.gap <= n * self.penalty.gap) by (nonlinear_arith)
                requires
                    j <= n,
                    0 < self.penalty.gap,
            ;
            assert(0 < j * self.penalty.gap) by (nonlinear_arith)
                requires
                    0 < j,
                    0 < self.penalty.gap,
            ;
        }
    }

    proof fn lemma_first_column_paths(&self, n: nat, costs: Seq<i64>, j: nat)
        requires
            self.scope == AlignmentScope::Global,
            0 < self.penalty.gap,
            lo(self.bounds) < 0,
            n * self.penalty.gap < hi(self.bounds),
            j <= n,
            n < usize::MAX,
        ensures
            paths_from(self.grid_of(0, n, costs), Cursor { x: 0, y: j as usize })
                =~= seq![Seq::new(j, |k: int| insert_mask())],
        decreases j,
    {
        let g = self.grid_of(0, n, costs);
        let c = Cursor { x: 0, y: j as usize };
        self.lemma_first_column(n, costs, j);
        assert(cell_of(g, c) == self.cell_at(0, n, costs, 0, j));
        if j == 0 {
            assert(Seq::new(0, |k: int| insert_mask()) =~= Seq::<StepMask>::empty());
        } else {
            self.lemma_first_column_paths(n, costs, (j - 1) as nat);
            let below = Cursor { x: 0, y: (j - 1) as usize };
            assert(crate::cursor::backward(c, insert_mask()) == below);
            let inner = seq![Seq::new((j - 1) as nat, |k: int| insert_mask())];
            assert(prefixed(seq![insert_mask()], inner) =~= seq![Seq::new(j, |k: int| insert_mask())]) by {
                assert(seq![insert_mask()] + inner[0] =~= Seq::new(j, |k: int| insert_mask()));
            }
        }
    }

    /// With an empty first sequence, a global alignment whose boundary scores
    /// are not clamped has exactly one optimal alignment: an insertion of every
    /// element of the second sequence.
    pub proof fn lemma_empty_first_sequence(&self, n: nat, costs: Seq<i64>)
        requires
            self.scope == AlignmentScope::Global,
            0 < self.penalty.gap,
            lo(self.bounds) < 0,
            n * self.penalty.gap < hi(self.bounds),
            n < usize::MAX,
        ensures
            all_paths(self.grid_of(0, n, costs), self.terminal(0, n, costs)) == if n == 0 {
                Seq::empty()
            } else {
                seq![Seq::new(n, |k: int| insert_mask())]
            },
            walk_backward(self.terminal(0, n, costs), Seq::new(n, |k: int| insert_mask())) == (Cursor { x: 0, y: 0 }),
            cell_of(self.grid_of(0, n, costs), self.terminal(0, n, costs)).score == n * self.penalty.gap,
    {
        let g = self.grid_of(0, n, costs);
        let t = self.terminal(0, n, costs);
        self.lemma_first_column(n, costs, n);
        assert(cell_of(g, t) == self.cell_at(0, n, costs, 0, n));
        if n > 0 {
            self.lemma_first_column_paths(n, costs, n);
        }
        lemma_inserts_walk_back(n, n);
    }
}

/// Undoing `j` insertions from row `n` of column 0 leads to row `n - j`.
proof fn lemma_inserts_walk_back(n: nat, j: nat)
    requires
        j <= n,
        n < usize::MAX,
    ensures
        walk_backward(Cursor { x: 0, y: n as usize }, Seq::new(j, |k: int| insert_mask()))
            == (Cursor { x: 0, y: (n - j) as usize }),
    decreases j,
{
    if j > 0 {
        lemma_inserts_walk_back(n, (j - 1) as nat);
        let s = Seq::new(j, |k: int| insert_mask());
        assert(s.drop_last() =~= Seq::new((j - 1) as nat, |k: int| insert_mask()));
    }
}

} // verus!
