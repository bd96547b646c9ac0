use seal::{
    AlignmentMatrix, AlignmentScope, Cursor, MappedMatrix, Matrix, MatrixError, Penalty, Run, Step,
    Strategy,
};

fn chars(s: &str) -> Vec<char> {
    s.chars().collect()
}

fn mask_cost(a: &char, b: &char) -> i64 {
    if a == b {
        -1
    } else {
        1
    }
}

#[test]
fn global_alignment_of_a_substring() {
    let x = chars("ABCDEFG");
    let y = chars("CD");
    let strategy = Strategy::needleman_wunsch();
    let alignment = strategy.alignment(&x, &y, mask_cost).unwrap();
    assert_eq!(alignment.score(), 3);
    assert_eq!(
        alignment.runs(),
        vec![
            Run::Delete { x: 0..2 },
            Run::Align { x: 2..4, y: 0..2 },
            Run::Delete { x: 4..7 },
        ]
    );
    let deletes = alignment
        .steps()
        .iter()
        .filter(|s| matches!(s, Step::Delete { .. }))
        .count();
    assert_eq!(deletes, 5);
    assert_eq!(strategy.distance(&x, &y, mask_cost), Some(3));
}

#[test]
fn local_alignment_finds_the_plateau() {
    let x: Vec<i64> = vec![0, 1, 5, 10, 10, 10, 5, 1, 0];
    let y: Vec<i64> = vec![0, 10, 10, 10, 0];
    let strategy = Strategy::smith_waterman();
    let alignment = strategy
        .alignment(&x, &y, |a: &i64, b: &i64| (a - b).abs() - 1)
        .unwrap();
    let runs = alignment.runs();
    assert!(runs.contains(&Run::Align { x: 3..6, y: 1..4 }), "{:?}", runs);
    for step in alignment.steps() {
        if let Step::Align { x: i, y: j } = step {
            assert_eq!(x[i], 10);
            assert_eq!(y[j], 10);
        }
    }
    assert_eq!(alignment.score(), -3);
}

#[test]
fn dynamic_time_warping_is_monotonic() {
    let x: Vec<i64> = vec![0, 1, 1, 2, 2, 3, 5];
    let y: Vec<i64> = vec![0, 1, 2, 3, 5, 5, 5, 6];
    let strategy = Strategy::dynamic_time_warping();
    let alignment = strategy
        .alignment(&x, &y, |a: &i64, b: &i64| (a - b).abs())
        .unwrap();
    let steps = alignment.steps();
    assert!(steps.contains(&Step::Align { x: 0, y: 0 }), "{:?}", steps);
    let mut cursor = *alignment.origin();
    for step in &steps {
        match *step {
            Step::Align { x: i, y: j } => {
                assert_eq!((i, j), (cursor.x, cursor.y));
                cursor = Cursor::new(i + 1, j + 1);
            }
            Step::Delete { x: i } => {
                assert_eq!(i, cursor.x);
                cursor = Cursor::new(i + 1, cursor.y);
            }
            Step::Insert { y: j } => {
                assert_eq!(j, cursor.y);
                cursor = Cursor::new(cursor.x, j + 1);
            }
        }
    }
    assert_eq!(cursor, Cursor::new(7, 8));
    assert_eq!(alignment.score(), 5);
}

#[test]
fn empty_first_sequence_is_all_inserts() {
    let x: Vec<char> = vec![];
    let y = chars("ABC");
    let strategy = Strategy::needleman_wunsch();
    let alignment = strategy.alignment(&x, &y, mask_cost).unwrap();
    assert_eq!(alignment.runs(), vec![Run::Insert { y: 0..3 }]);
    assert_eq!(alignment.score(), 3);
    assert_eq!(*alignment.origin(), Cursor::new(0, 0));
}

#[test]
fn both_sequences_empty_give_no_alignment() {
    let x: Vec<char> = vec![];
    let strategy = Strategy::needleman_wunsch();
    assert!(strategy.alignment(&x, &x, mask_cost).is_none());
    assert_eq!(strategy.distance(&x, &x, mask_cost), None);
}

#[test]
fn levenshtein_distance() {
    let strategy = Strategy::levenshtein();
    let x = chars("kitten");
    let y = chars("sitting");
    let d = strategy.distance(&x, &y, |a: &char, b: &char| if a == b { 0 } else { 1 });
    assert_eq!(d, Some(3));
}

#[test]
fn every_filled_cell_is_within_bounds() {
    let x = chars("GATTACA");
    let y = chars("GCATGCU");
    for strategy in [Strategy::needleman_wunsch(), Strategy::smith_waterman()] {
        let all = strategy.alignments(&x, &y, mask_cost);
        let m = all.matrix();
        let (lo, hi) = (*strategy.bounds().start(), *strategy.bounds().end());
        for row in 0..m.height() {
            for col in 0..m.width() {
                let s = m.cell(&Cursor::new(col, row)).score();
                assert!(lo <= s && s <= hi);
            }
        }
    }
}

#[test]
fn every_alignment_replays_to_the_start_cell() {
    let x = chars("AAAB");
    let y = chars("AB");
    let strategy = Strategy::needleman_wunsch();
    let all = strategy.alignments(&x, &y, mask_cost);
    let terminal = all.cursor();
    let mut iter = all.iter();
    let mut count = 0;
    while let Some(alignment) = iter.next() {
        let mut cursor = *alignment.origin();
        for mask in alignment.masks() {
            cursor = cursor.forwards_step(*mask).unwrap();
        }
        assert_eq!(cursor, terminal);
        assert_eq!(alignment.score(), all.score());
        count += 1;
    }
    assert_eq!(count, 3);
    let first = all.alignment().unwrap();
    assert_eq!(first.masks(), all.iter().next().unwrap().masks());
}

#[test]
fn run_lengths_add_up_to_the_steps() {
    let x = chars("ACCGGTTA");
    let y = chars("ACGTA");
    let alignment = Strategy::needleman_wunsch().alignment(&x, &y, mask_cost).unwrap();
    let steps = alignment.steps();
    let mut expanded: Vec<Step> = vec![];
    for run in alignment.runs() {
        match run {
            Run::Align { x, y } => {
                assert_eq!(x.len(), y.len());
                for (i, j) in x.zip(y) {
                    expanded.push(Step::Align { x: i, y: j });
                }
            }
            Run::Delete { x } => expanded.extend(x.map(|i| Step::Delete { x: i })),
            Run::Insert { y } => expanded.extend(y.map(|j| Step::Insert { y: j })),
        }
    }
    assert_eq!(expanded, steps);
}

#[test]
fn dense_and_mapped_backends_agree() {
    let x = chars("ALIGNMENT");
    let y = chars("ASSIGNMENTS");
    let m = x.len();
    let n = y.len();
    let mut costs = vec![];
    for b in &y {
        for a in &x {
            costs.push(mask_cost(a, b));
        }
    }
    for strategy in [
        Strategy::needleman_wunsch(),
        Strategy::smith_waterman(),
        Strategy::new(Penalty { matched: -2, mismatch: 3, gap: 2 }, 2, -20..=20, AlignmentScope::Global),
    ] {
        let dense = strategy.alignments_from_costs(m, n, &costs);
        let mapped = strategy.alignments_in::<MappedMatrix>(m, n, &costs).unwrap();
        assert_eq!(dense.cursor(), mapped.cursor());
        for row in 0..=n {
            for col in 0..=m {
                let c = Cursor::new(col, row);
                assert_eq!(dense.matrix().cell(&c), mapped.matrix().cell(&c));
            }
        }
    }
}

#[test]
fn mapped_cells_keep_negative_scores() {
    let mut matrix = MappedMatrix::new(3, 2).unwrap();
    let cell = seal::MatrixCell::new_unchecked(-123_456_789_012, seal::StepMask::insert());
    matrix.set_cell(&Cursor::new(2, 1), cell);
    assert_eq!(matrix.cell(&Cursor::new(2, 1)), cell);
    assert_eq!(matrix.cell(&Cursor::new(1, 1)).score(), 0);
    assert_eq!(matrix.width(), 3);
    assert_eq!(matrix.height(), 2);
}

#[test]
fn mapped_matrix_errors() {
    assert!(matches!(MappedMatrix::new(usize::MAX, 1), Err(MatrixError::TooLarge)));
    let map = memmap::MmapMut::map_anon(9).unwrap();
    assert!(matches!(MappedMatrix::from_map(2, 1, map), Err(MatrixError::Mapping)));
    let map = memmap::MmapMut::map_anon(18).unwrap();
    assert!(MappedMatrix::from_map(2, 1, map).is_ok());
}

#[test]
fn banded_pass_leaves_far_cells_blank() {
    let x = chars("AAAAAAAA");
    let y = chars("AAAAAAAA");
    let strategy = Strategy::new(
        Penalty { matched: -1, mismatch: 1, gap: 1 },
        1,
        i64::MIN..=i64::MAX,
        AlignmentScope::Global,
    );
    let all = strategy.alignments(&x, &y, mask_cost);
    let far = all.matrix().cell(&Cursor::new(8, 1));
    assert_eq!(far.score(), 0);
    assert!(far.steps().is_empty());
    assert_eq!(all.score(), -8);
    assert_eq!(all.cursor(), Cursor::new(8, 8));
}

#[test]
fn pick_optimum_and_boundary_rules() {
    let global = Strategy::needleman_wunsch();
    let local = Strategy::smith_waterman();
    let a = (5, Cursor::new(2, 2));
    let b = (1, Cursor::new(1, 3));
    assert_eq!(global.pick_optimum(a, b), a);
    assert_eq!(global.pick_optimum(b, (9, Cursor::new(4, 4))), (9, Cursor::new(4, 4)));
    assert_eq!(local.pick_optimum(a, b), b);
    assert_eq!(local.pick_optimum(b, a), b);
    assert_eq!(global.boundary_score(4), 5);
    assert_eq!(global.boundary_score(-10), -9);
    assert_eq!(local.boundary_score(-4), 0);
    assert_eq!(global.window(), usize::MAX);
    assert_eq!(global.penalty().gap, 1);
}

#[test]
fn dense_matrix_starts_blank() {
    let m = Matrix::new(2, 3).unwrap();
    assert_eq!(m.width(), 2);
    assert_eq!(m.height(), 3);
    assert!(m.cell(&Cursor::new(1, 2)).steps().is_empty());
}

#[test]
fn gaps_cost_the_plain_gap_penalty() {
    let strategy = Strategy::needleman_wunsch();
    let all = strategy.alignments(&[1i64], &[3i64], |a: &i64, b: &i64| (a - b).abs());
    let cell = all.matrix().cell(&Cursor::new(1, 1));
    assert_eq!(cell.score(), 2);
    let s = cell.steps();
    assert!(s.align && s.delete && s.insert);
}

#[test]
fn row_zero_accumulates_the_unclamped_score() {
    let strategy = Strategy::new(Penalty { matched: -1, mismatch: 1, gap: 1 }, usize::MAX, 5..=10, AlignmentScope::Global);
    let x = chars("ABCDEFGH");
    let y = chars("A");
    let all = strategy.alignments(&x, &y, mask_cost);
    let m = all.matrix();
    assert_eq!(m.cell(&Cursor::new(1, 0)), seal::MatrixCell::new_unchecked(5, seal::StepMask::stop()));
    assert_eq!(m.cell(&Cursor::new(6, 0)), seal::MatrixCell::new_unchecked(6, seal::StepMask::delete()));
    assert_eq!(m.cell(&Cursor::new(8, 0)), seal::MatrixCell::new_unchecked(8, seal::StepMask::delete()));
}

#[test]
fn costs_are_asked_only_inside_the_band() {
    let x = chars("AAAAAAAA");
    let y = chars("AAAAAAAA");
    let strategy = Strategy::new(Penalty { matched: -1, mismatch: 1, gap: 1 }, 1, i64::MIN..=i64::MAX, AlignmentScope::Global);
    let calls = std::cell::Cell::new(0usize);
    strategy.alignments(&x, &y, |a: &char, b: &char| {
        calls.set(calls.get() + 1);
        mask_cost(a, b)
    });
    assert!(calls.get() < 64);
    assert_eq!(calls.get(), 22);
}

#[test]
fn levenshtein_distance_of_equal_strings_is_zero() {
    let strategy = Strategy::levenshtein();
    let x = chars("banana");
    let d = strategy.distance(&x, &x, |a: &char, b: &char| if a == b { 0 } else { 1 });
    assert_eq!(d, Some(0));
    let one = chars("a");
    let alignment = strategy
        .alignment(&one, &one, |a: &char, b: &char| if a == b { 0 } else { 1 })
        .unwrap();
    assert_eq!(*alignment.origin(), Cursor::new(0, 0));
    assert_eq!(alignment.runs(), vec![Run::Align { x: 0..1, y: 0..1 }]);
}

#[test]
fn mapped_matrix_without_cells() {
    let m = MappedMatrix::new(0, 5).unwrap();
    assert_eq!(m.width(), 0);
    assert_eq!(m.height(), 5);
}

#[test]
fn rows_are_read_whole() {
    let x = chars("AB");
    let y = chars("A");
    let all = Strategy::needleman_wunsch().alignments(&x, &y, mask_cost);
    let row = all.row(1);
    assert_eq!(row.len(), 3);
    for (col, cell) in row.iter().enumerate() {
        assert_eq!(*cell, all.matrix().cell(&Cursor::new(col, 1)));
    }
    assert_eq!(seal::matrix::row(all.matrix(), 0)[2].score(), 2);
}

#[test]
fn first_alignment_is_the_first_yield() {
    let x = chars("ABAB");
    let y = chars("BA");
    let all = Strategy::needleman_wunsch().alignments(&x, &y, mask_cost);
    let first = all.alignment().unwrap();
    let yielded = all.iter().next().unwrap();
    assert_eq!(first.masks(), yielded.masks());
    assert_eq!(first.origin(), yielded.origin());
}
