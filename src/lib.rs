//! Optimal pairwise alignment of two sequences: a banded dynamic-programming
//! forward pass over a matrix of cells, a depth-first backtrace over every
//! optimal path, and the projection of a path into edit steps and runs.
use vstd::prelude::*;

pub mod alignment;
pub mod alignment_set;
pub mod alignments;
pub mod bounds;
pub mod cell;
pub mod cursor;
pub mod mapped;
pub mod matrix;
pub mod needleman_wunsch;
pub mod penalty;
pub mod run;
pub mod runs;
pub mod smith_waterman;
pub mod step;
pub mod step_mask;
pub mod steps;
pub mod strategy;

pub use crate::alignment::Alignment;
pub use crate::alignment_set::AlignmentSet;
pub use crate::alignments::{Alignments, Iter};
pub use crate::cell::MatrixCell;
pub use crate::cursor::Cursor;
pub use crate::mapped::MappedMatrix;
pub use crate::matrix::{AlignmentMatrix, Matrix, MatrixError};
pub use crate::needleman_wunsch::NeedlemanWunsch;
pub use crate::penalty::Penalty;
pub use crate::run::Run;
pub use crate::smith_waterman::SmithWaterman;
pub use crate::step::Step;
pub use crate::step_mask::StepMask;
pub use crate::strategy::{AlignmentScope, Strategy};

verus! {

} // verus!
