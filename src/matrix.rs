use vstd::prelude::*;

use crate::cell::{stop_mask, MatrixCell};
use crate::cursor::Cursor;
use crate::step_mask::StepMask;

verus! {

/// Why the storage of a matrix could not be set up.
#[derive(Clone, Copy, Debug, PartialEq, Eq, Structural)]
pub enum MatrixError {
    /// The matrix needs more bytes than an address can count.
    TooLarge,
    /// The memory map could not be created, or is too small for the matrix.
    Mapping,
}

/// The cell that a new matrix holds everywhere.
pub open spec fn blank_cell() -> MatrixCell {
    MatrixCell { score: 0, steps: stop_mask() }
}

/// `height` rows of `width` cells each.
pub open spec fn has_shape(g: Seq<Seq<MatrixCell>>, width: nat, height: nat) -> bool {
    g.len() == height && forall|y: int| 0 <= y < height ==> (#[trigger] g[y]).len() == width
}

pub open spec fn blank_grid(width: nat, height: nat) -> Seq<Seq<MatrixCell>> {
    Seq::new(height, |y: int| Seq::new(width, |x: int| blank_cell()))
}

/// `g` with the cell at `c` replaced by `cell`.
pub open spec fn grid_update(g: Seq<Seq<MatrixCell>>, c: Cursor, cell: MatrixCell) -> Seq<
    Seq<MatrixCell>,
> {
    g.update(c.y as int, g[c.y as int].update(c.x as int, cell))
}

/// Storage for the cells of an alignment matrix, `width` columns by `height`
/// rows, addressed by a cursor in row-major order.
pub trait AlignmentMatrix: Sized {
    spec fn spec_width(&self) -> nat;

    spec fn spec_height(&self) -> nat;

    /// The cells, row by row: `grid()[y][x]` is the cell at `(x, y)`.
    spec fn grid(&self) -> Seq<Seq<MatrixCell>>;

    spec fn wf(&self) -> bool;

    /// Setting up the storage cannot fail.
    spec fn infallible() -> bool;

    proof fn lemma_wf(&self)
        requires
            self.wf(),
        ensures
            has_shape(self.grid(), self.spec_width(), self.spec_height()),
            self.spec_width() * self.spec_height() <= usize::MAX,
    ;

    /// A matrix of `width` by `height` blank cells.
    fn new(width: usize, height: usize) -> (r: Result<Self, MatrixError>)
        requires
            width * height <= usize::MAX,
        ensures
            r is Ok ==> {
                &&& r->Ok_0.wf()
                &&& r->Ok_0.spec_width() == width
                &&& r->Ok_0.spec_height() == height
                &&& r->Ok_0.grid() == blank_grid(width as nat, height as nat)
            },
            Self::infallible() ==> r is Ok,
    ;

    fn width(&self) -> (r: usize)
        requires
            self.wf(),
        ensures
            r == self.spec_width(),
    ;

    fn height(&self) -> (r: usize)
        requires
            self.wf(),
        ensures
            r == self.spec_height(),
    ;

    /// The cell at `cursor`.
    fn cell(&self, cursor: &Cursor) -> (r: MatrixCell)
        requires
            self.wf(),
            cursor.x < self.spec_width(),
            cursor.y < self.spec_height(),
        ensures
            r == self.grid()[cursor.y as int][cursor.x as int],
    ;

    /// Writes `cell` at `cursor`; every other cell keeps its value.
    fn set_cell(&mut self, cursor: &Cursor, cell: MatrixCell)
        requires
            old(self).wf(),
            cursor.x < old(self).spec_width(),
            cursor.y < old(self).spec_height(),
        ensures
            final(self).wf(),
            final(self).spec_width() == old(self).spec_width(),
            final(self).spec_height() == old(self).spec_height(),
            final(self).grid() == grid_update(old(self).grid(), *cursor, cell),
    ;
}

/// A copy of row `y` of `matrix`, from column 0 onwards.
pub fn row<M: AlignmentMatrix>(matrix: &M, y: usize) -> (r: Vec<MatrixCell>)
    requires
        matrix.wf(),
        y < matrix.spec_height(),
    ensures
        r@ == matrix.grid()[y as int],
{
    proof {
        matrix.lemma_wf();
    }
    let width = matrix.width();
    let mut cells: Vec<MatrixCell> = Vec::new();
    let mut x: usize = 0;
    while x < width
        invariant
            matrix.wf(),
            y < matrix.spec_height(),
            width == matrix.spec_width(),
            has_shape(matrix.grid(), matrix.spec_width(), matrix.spec_height()),
            x <= width,
            cells@ =~= matrix.grid()[y as int].take(x as int),
        decreases width - x,
    {
        cells.push(matrix.cell(&Cursor { x, y }));
        x = x + 1;
    }
    cells
}

/// The offset `x + y * width` of a cell inside the matrix lies within it.
pub proof fn lemma_offset_in_range(x: int, y: int, width: int, height: int)
    requires
        0 <= x < width,
        0 <= y < height,
    ensures
        0 <= x + y * width < width * height,
{
    assert(x + y * width < width * height) by (nonlinear_arith)
        requires
            0 <= x < width,
            0 <= y < height,
    ;
    assert(0 <= y * width) by (nonlinear_arith)
        requires
            0 <= y,
            0 <= width,
    ;
}

/// Two cells of the matrix share an offset only if they are the same cell.
pub proof fn lemma_offset_unique(x1: int, y1: int, x2: int, y2: int, width: int)
    requires
        0 <= x1 < width,
        0 <= x2 < width,
        0 <= y1,
        0 <= y2,
        x1 + y1 * width == x2 + y2 * width,
    ensures
        x1 == x2,
        y1 == y2,
{
    if y1 < y2 {
        assert(y1 * width + width <= y2 * width) by (nonlinear_arith)
            requires
                y1 < y2,
                0 <= width,
        ;
    } else if y2 < y1 {
        assert(y2 * width + width <= y1 * width) by (nonlinear_arith)
            requires
                y2 < y1,
                0 <= width,
        ;
    }
}

/// The dense backend: every cell in one contiguous buffer, row by row.
pub struct Matrix {
    width: usize,
    height: usize,
    buffer: Vec<MatrixCell>,
}

impl AlignmentMatrix for Matrix {
    closed spec fn spec_width(&self) -> nat {
        self.width as nat
    }

    closed spec fn spec_height(&self) -> nat {
        self.height as nat
    }

    closed spec fn grid(&self) -> Seq<Seq<MatrixCell>> {
        Seq::new(
            self.height as nat,
            |y: int| Seq::new(self.width as nat, |x: int| self.buffer@[x + y * self.width]),
        )
    }

    closed spec fn wf(&self) -> bool {
        self.buffer@.len() == self.width * self.height && self.width * self.height <= usize::MAX
    }

    open spec fn infallible() -> bool {
        true
    }

    proof fn lemma_wf(&self) {
    }

    fn new(width: usize, height: usize) -> (r: Result<Matrix, MatrixError>)
        ensures
            r is Ok,
    {
        let cell = MatrixCell::new_unchecked(0, StepMask::stop());
        let size = width * height;
        let mut buffer: Vec<MatrixCell> = Vec::with_capacity(size);
        let mut i: usize = 0;
        while i < size
            invariant
                0 <= i <= size,
                cell == blank_cell(),
                buffer@.len() == i,
                forall|k: int| 0 <= k < i ==> #[trigger] buffer@[k] == blank_cell(),
            decreases size - i,
        {
            buffer.push(cell);
            i = i + 1;
        }
        let m = Matrix { width, height, buffer };
        proof {
            assert forall|y: int| 0 <= y < height implies #[trigger] m.grid()[y] =~= blank_grid(
                width as nat,
                height as nat,
            )[y] by {
                assert forall|x: int| 0 <= x < width implies #[trigger] m.grid()[y][x]
                    == blank_cell() by {
                    lemma_offset_in_range(x, y, width as int, height as int);
                }
            }
            assert(m.grid() =~= blank_grid(width as nat, height as nat));
        }
        Ok(m)
    }

    fn width(&self) -> (r: usize) {
        self.width
    }

    fn height(&self) -> (r: usize) {
        self.height
    }

    fn cell(&self, cursor: &Cursor) -> (r: MatrixCell) {
        proof {
            lemma_offset_in_range(cursor.x as int, cursor.y as int, self.width as int, self.height as int);
        }
        self.buffer[cursor.x + cursor.y * self.width]
    }

    fn set_cell(&mut self, cursor: &Cursor, cell: MatrixCell) {
        proof {
            lemma_offset_in_range(cursor.x as int, cursor.y as int, self.width as int, self.height as int);
        }
        let offset = cursor.x + cursor.y * self.width;
        let ghost before = self.grid();
        self.buffer.set(offset, cell);
        proof {
            let after = self.grid();
            let expected = grid_update(before, *cursor, cell);
            assert forall|y: int| 0 <= y < self.height implies #[trigger] after[y] =~= expected[y] by {
                assert forall|x: int| 0 <= x < self.width implies #[trigger] after[y][x]
                    == expected[y][x] by {
                    lemma_offset_in_range(x, y, self.width as int, self.height as int);
                    if x + y * self.width == offset {
                        lemma_offset_unique(x, y, cursor.x as int, cursor.y as int, self.width as int);
                    }
                }
            }
            assert(after =~= expected);
        }
    }
}

} // verus!
