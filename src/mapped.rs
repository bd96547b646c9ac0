use vstd::prelude::*;

use memmap::MmapMut;

use crate::cell::MatrixCell;
use crate::cursor::Cursor;
use crate::matrix::{
    blank_cell, blank_grid, grid_update, lemma_offset_in_range, lemma_offset_unique,
    AlignmentMatrix, MatrixError,
};
use crate::step_mask::{lemma_bits_round_trip, spec_bits, spec_from_bits, StepMask};

verus! {

#[verifier::external_type_specification]
#[verifier::external_body]
pub struct ExMmapMut(memmap::MmapMut);

#[verifier::external_type_specification]
#[verifier::external_body]
pub struct ExIoError(std::io::Error);

/// The bytes that a memory map holds.
pub uninterp spec fn mapped_bytes(m: MmapMut) -> Seq<u8>;

/// Relies on `memmap::MmapMut::map_anon`: a new anonymous map of `len` bytes.
#[verifier::external_body]
fn map_anonymous(len: usize) -> (r: Result<MmapMut, std::io::Error>)
    ensures
        r matches Ok(m) ==> mapped_bytes(m).len() == len,
{
    MmapMut::map_anon(len)
}

/// Relies on `Deref` of `memmap::MmapMut`: the slice of the mapped bytes.
#[verifier::external_body]
fn map_bytes(m: &MmapMut) -> (r: &[u8])
    ensures
        r@ == mapped_bytes(*m),
{
    &m[..]
}

/// Relies on `DerefMut` of `memmap::MmapMut`: writes one byte of the map.
#[verifier::external_body]
fn write_byte(m: &mut MmapMut, i: usize, b: u8)
    requires
        i < mapped_bytes(*old(m)).len(),
    ensures
        mapped_bytes(*final(m)) == mapped_bytes(*old(m)).update(i as int, b),
{
    m[i] = b;
}

/// How many bytes one cell takes: eight for the score, one for the directions.
pub const CELL_BYTES: usize = 9;

/// Byte `k` of the little-endian two's-complement form of `v`.
pub open spec fn score_byte(v: i64, k: int) -> u8 {
    ((v as u64) >> ((8 * k) as u64)) as u8
}

/// The score that eight little-endian bytes hold.
pub open spec fn decode_score(b: Seq<u8>) -> i64 {
    ((b[0] as u64) | ((b[1] as u64) << 8u64) | ((b[2] as u64) << 16u64) | ((b[3] as u64) << 24u64)
        | ((b[4] as u64) << 32u64) | ((b[5] as u64) << 40u64) | ((b[6] as u64) << 48u64) | ((
    b[7] as u64) << 56u64)) as i64
}

/// The nine bytes that stand for `c`.
pub open spec fn encode_cell(c: MatrixCell) -> Seq<u8> {
    Seq::new(9, |k: int| if k < 8 { score_byte(c.score, k) } else { spec_bits(c.steps) })
}

/// The cell that nine bytes stand for.
pub open spec fn decode_cell(b: Seq<u8>) -> MatrixCell {
    MatrixCell { score: decode_score(b), steps: spec_from_bits(b[8]) }
}

/// Writing a cell as bytes and reading it back gives the same cell.
pub proof fn lemma_cell_round_trip(c: MatrixCell)
    ensures
        decode_cell(encode_cell(c)) == c,
{
    let v = c.score;
    let u = v as u64;
    let b = encode_cell(c);
    assert(b[0] == (u >> 0u64) as u8);
    assert(b[1] == (u >> 8u64) as u8);
    assert(b[2] == (u >> 16u64) as u8);
    assert(b[3] == (u >> 24u64) as u8);
    assert(b[4] == (u >> 32u64) as u8);
    assert(b[5] == (u >> 40u64) as u8);
    assert(b[6] == (u >> 48u64) as u8);
    assert(b[7] == (u >> 56u64) as u8);
    assert(((((u >> 0u64) as u8) as u64) | ((((u >> 8u64) as u8) as u64) << 8u64) | ((((u
        >> 16u64) as u8) as u64) << 16u64) | ((((u >> 24u64) as u8) as u64) << 24u64) | ((((u
        >> 32u64) as u8) as u64) << 32u64) | ((((u >> 40u64) as u8) as u64) << 40u64) | ((((u
        >> 48u64) as u8) as u64) << 48u64) | ((((u >> 56u64) as u8) as u64) << 56u64)) == u)
        by (bit_vector);
    assert((u as i64) == v) by (bit_vector)
        requires
            u == v as u64,
    ;
    lemma_bits_round_trip(c.steps);
}

proof fn lemma_zero_is_blank(b: Seq<u8>)
    requires
        b.len() == 9,
        forall|k: int| 0 <= k < 9 ==> b[k] == 0,
    ensures
        decode_cell(b) == blank_cell(),
{
    assert(b[0] == 0 && b[1] == 0 && b[2] == 0 && b[3] == 0 && b[4] == 0 && b[5] == 0 && b[6]
        == 0 && b[7] == 0 && b[8] == 0);
    assert(((0u8 as u64) | ((0u8 as u64) << 8u64) | ((0u8 as u64) << 16u64) | ((0u8 as u64)
        << 24u64) | ((0u8 as u64) << 32u64) | ((0u8 as u64) << 40u64) | ((0u8 as u64) << 48u64)
        | ((0u8 as u64) << 56u64)) as i64 == 0) by (bit_vector);
    assert(0u8 & 2 == 0 && 0u8 & 4 == 0 && 0u8 & 8 == 0) by (bit_vector);
}

/// The memory-mapped backend: every cell as nine bytes of a memory map, row
/// by row.
pub struct MappedMatrix {
    width: usize,
    height: usize,
    map: MmapMut,
}

impl MappedMatrix {
    /// The bytes of the cell at offset `o`.
    pub closed spec fn cell_bytes(&self, o: int) -> Seq<u8> {
        mapped_bytes(self.map).subrange(9 * o, 9 * o + 9)
    }

    /// A matrix of `width` by `height` blank cells over the memory map `map`,
    /// such as one that maps a file; fails when the map is too small.
    ///
    /// Nothing else may write to the map while the matrix lives: the matrix
    /// relies on reading back exactly the bytes it wrote.
    pub fn from_map(width: usize, height: usize, map: MmapMut) -> (r: Result<MappedMatrix, MatrixError>)
        requires
            width * height <= usize::MAX,
        ensures
            r matches Ok(m) ==> {
                &&& m.wf()
                &&& m.spec_width() == width
                &&& m.spec_height() == height
                &&& m.grid() == blank_grid(width as nat, height as nat)
            },
            r matches Err(e) ==> e == MatrixError::TooLarge || e == MatrixError::Mapping,
            r is Ok <==> (9 * width * height <= usize::MAX && 9 * width * height <= mapped_bytes(map).len()),
    {
        let size = width * height;
        if size > usize::MAX / CELL_BYTES {
            proof {
                assert(9 * size > usize::MAX) by (nonlinear_arith)
                    requires
                        size > usize::MAX / 9,
                ;
                assert(9 * width * height == 9 * size) by (nonlinear_arith)
                    requires
                        size == width * height,
                ;
            }
            return Err(MatrixError::TooLarge);
        }
        let len = size * CELL_BYTES;
        proof {
            assert(len == 9 * width * height) by (nonlinear_arith)
                requires
                    size == width * height,
                    len == size * 9,
            ;
        }
        if map_bytes(&map).len() < len {
            return Err(MatrixError::Mapping);
        }
        let mut matrix = MappedMatrix { width, height, map };
        matrix.clear(len);
        Ok(matrix)
    }

    /// Sets the first `len` bytes of the map to zero, which makes every cell blank.
    fn clear(&mut self, len: usize)
        requires
            len == 9 * old(self).width * old(self).height,
            old(self).width * old(self).height <= usize::MAX,
            len <= mapped_bytes(old(self).map).len(),
        ensures
            final(self).wf(),
            final(self).width == old(self).width,
            final(self).height == old(self).height,
            final(self).grid() == blank_grid(old(self).width as nat, old(self).height as nat),
    {
        let mut k: usize = 0;
        while k < len
            invariant
                k <= len,
                len == 9 * self.width * self.height,
                self.width * self.height <= usize::MAX,
                len <= mapped_bytes(self.map).len(),
                self.width == old(self).width,
                self.height == old(self).height,
                forall|i: int| 0 <= i < k ==> #[trigger] mapped_bytes(self.map)[i] == 0,
            decreases len - k,
        {
            write_byte(&mut self.map, k, 0);
            k = k + 1;
        }
        proof {
            let w = self.width as int;
            let h = self.height as int;
            assert forall|y: int| 0 <= y < h implies #[trigger] self.grid()[y] =~= blank_grid(w as nat, h as nat)[y] by {
                assert forall|x: int| 0 <= x < w implies #[trigger] self.grid()[y][x] == blank_cell() by {
                    lemma_offset_in_range(x, y, w, h);
                    let o = x + y * w;
                    assert(9 * o + 9 <= 9 * (w * h));
                    assert(9 * (w * h) == 9 * w * h) by (nonlinear_arith);
                    lemma_zero_is_blank(self.cell_bytes(o));
                }
            }
            assert(self.grid() =~= blank_grid(w as nat, h as nat));
        }
    }
}

impl AlignmentMatrix for MappedMatrix {
    closed spec fn spec_width(&self) -> nat {
        self.width as nat
    }

    closed spec fn spec_height(&self) -> nat {
        self.height as nat
    }

    closed spec fn grid(&self) -> Seq<Seq<MatrixCell>> {
        Seq::new(
            self.height as nat,
            |y: int| Seq::new(self.width as nat, |x: int| decode_cell(self.cell_bytes(x + y * self.width))),
        )
    }

    closed spec fn wf(&self) -> bool {
        &&& self.width * self.height <= usize::MAX
        &&& 9 * self.width * self.height <= usize::MAX
        &&& 9 * self.width * self.height <= mapped_bytes(self.map).len()
    }

    open spec fn infallible() -> bool {
        false
    }

    proof fn lemma_wf(&self) {
    }

    /// A matrix over a new anonymous memory map; fails with `TooLarge` exactly
    /// when its bytes cannot be counted, and otherwise with `Mapping` only
    /// when the map cannot be created.
    fn new(width: usize, height: usize) -> (r: Result<MappedMatrix, MatrixError>)
        ensures
            r matches Err(e) ==> (e == MatrixError::TooLarge) == (9 * width * height > usize::MAX),
            r matches Err(e) ==> e == MatrixError::TooLarge || e == MatrixError::Mapping,
            9 * width * height > usize::MAX ==> r is Err,
    {
        let size = width * height;
        if size > usize::MAX / CELL_BYTES {
            proof {
                assert(9 * size > usize::MAX) by (nonlinear_arith)
                    requires
                        size > usize::MAX / 9,
                ;
                assert(9 * width * height == 9 * size) by (nonlinear_arith)
                    requires
                        size == width * height,
                ;
            }
            return Err(MatrixError::TooLarge);
        }
        let len = size * CELL_BYTES;
        proof {
            assert(len == 9 * width * height) by (nonlinear_arith)
                requires
                    size == width * height,
                    len == size * 9,
            ;
        }
        // A map needs at least one byte, even for a matrix without cells.
        let map_len = if len == 0 {
            1
        } else {
            len
        };
        match map_anonymous(map_len) {
            Ok(map) => {
                let mut matrix = MappedMatrix { width, height, map };
                matrix.clear(len);
                Ok(matrix)
            },
            Err(_) => Err(MatrixError::Mapping),
        }
    }

    fn width(&self) -> (r: usize) {
        self.width
    }

    fn height(&self) -> (r: usize) {
        self.height
    }

    fn cell(&self, cursor: &Cursor) -> (r: MatrixCell) {
        proof {
            lemma_offset_in_range(cursor.x as int, cursor.y as int, self.width as int, self.height as int);
            assert(9 * (self.width * self.height) == 9 * self.width * self.height) by (nonlinear_arith);
        }
        let o = (cursor.x + cursor.y * self.width) * CELL_BYTES;
        let bytes = map_bytes(&self.map);
        let u: u64 = (bytes[o] as u64) | ((bytes[o + 1] as u64) << 8u64) | ((bytes[o + 2] as u64)
            << 16u64) | ((bytes[o + 3] as u64) << 24u64) | ((bytes[o + 4] as u64) << 32u64) | ((
        bytes[o + 5] as u64) << 40u64) | ((bytes[o + 6] as u64) << 48u64) | ((bytes[o + 7] as u64)
            << 56u64);
        let steps = StepMask::from_bits(bytes[o + 8]);
        MatrixCell { score: u as i64, steps }
    }

    fn set_cell(&mut self, cursor: &Cursor, cell: MatrixCell) {
        proof {
            lemma_offset_in_range(cursor.x as int, cursor.y as int, self.width as int, self.height as int);
            assert(9 * (self.width * self.height) == 9 * self.width * self.height) by (nonlinear_arith);
        }
        let ghost before = self.grid();
        let ghost old_bytes = mapped_bytes(self.map);
        let o = (cursor.x + cursor.y * self.width) * CELL_BYTES;
        let u = cell.score as u64;
        write_byte(&mut self.map, o, u as u8);
        write_byte(&mut self.map, o + 1, (u >> 8u64) as u8);
        write_byte(&mut self.map, o + 2, (u >> 16u64) as u8);
        write_byte(&mut self.map, o + 3, (u >> 24u64) as u8);
        write_byte(&mut self.map, o + 4, (u >> 32u64) as u8);
        write_byte(&mut self.map, o + 5, (u >> 40u64) as u8);
        write_byte(&mut self.map, o + 6, (u >> 48u64) as u8);
        write_byte(&mut self.map, o + 7, (u >> 56u64) as u8);
        write_byte(&mut self.map, o + 8, cell.steps.bits());
        proof {
            let co = cursor.x + cursor.y * self.width;
            let new_bytes = mapped_bytes(self.map);
            assert(new_bytes.len() == old_bytes.len());
            assert(self.cell_bytes(co) =~= encode_cell(cell)) by {
                assert((u >> 0u64) == u) by (bit_vector);
            }
            lemma_cell_round_trip(cell);
            let after = self.grid();
            let expected = grid_update(before, *cursor, cell);
            assert forall|y: int| 0 <= y < self.height implies #[trigger] after[y] =~= expected[y] by {
                assert forall|x: int| 0 <= x < self.width implies #[trigger] after[y][x] == expected[y][x] by {
                    lemma_offset_in_range(x, y, self.width as int, self.height as int);
                    let xo = x + y * self.width;
                    if xo == co {
                        lemma_offset_unique(x, y, cursor.x as int, cursor.y as int, self.width as int);
                    } else {
                        assert(xo != co);
                        if x == cursor.x && y == cursor.y {
                            assert(false);
                        }
                        assert(self.cell_bytes(xo) =~= old_bytes.subrange(9 * xo, 9 * xo + 9));
                    }
                }
            }
            assert(after =~= expected);
        }
    }
}

/// The dense and the memory-mapped backends, given the same strategy and
/// costs, produce the same matrix cell for cell and the same start cell.
pub proof fn lemma_backends_agree(
    strategy: crate::strategy::Strategy,
    m: nat,
    n: nat,
    costs: Seq<i64>,
    dense: crate::alignments::Alignments<crate::matrix::Matrix>,
    mapped: crate::alignments::Alignments<MappedMatrix>,
)
    requires
        dense.spec_matrix().grid() == strategy.grid_of(m, n, costs),
        dense.spec_cursor() == strategy.terminal(m, n, costs),
        mapped.spec_matrix().grid() == strategy.grid_of(m, n, costs),
        mapped.spec_cursor() == strategy.terminal(m, n, costs),
    ensures
        forall|x: int, y: int|
            0 <= x <= m && 0 <= y <= n ==> #[trigger] dense.spec_matrix().grid()[y][x]
                == mapped.spec_matrix().grid()[y][x],
        dense.spec_cursor() == mapped.spec_cursor(),
{
}

} // verus!
