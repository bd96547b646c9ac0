use seal::alignment_set::Strategy as SimilarityStrategy;
use seal::{AlignmentMatrix, AlignmentSet, Cursor, MappedMatrix, Matrix, NeedlemanWunsch, SmithWaterman, StepMask};

fn chars(s: &str) -> Vec<char> {
    s.chars().collect()
}

#[test]
fn needleman_wunsch_scores_and_highscores() {
    let x = chars("AB");
    let y = chars("AB");
    let set: AlignmentSet<Matrix> =
        AlignmentSet::new(x.len(), y.len(), NeedlemanWunsch::new(1, -1, -1, -1), |i: usize, j: usize| x[i] == y[j])
            .unwrap();
    assert_eq!(set.global_score(), 2);
    assert_eq!(*set.global_max(), Cursor::new(2, 2));
    assert_eq!(set.local_score(), 2);
    assert_eq!(*set.local_max(), Cursor::new(2, 2));
    let m = set.matrix();
    assert_eq!(m.cell(&Cursor::new(1, 1)).score(), 1);
    assert_eq!(m.cell(&Cursor::new(2, 1)).steps(), StepMask::delete());
    assert_eq!(m.cell(&Cursor::new(1, 2)).steps(), StepMask::insert());
    assert_eq!(m.cell(&Cursor::new(2, 0)).score(), -2);
    let alignment = set.global_alignment().unwrap();
    assert_eq!(*alignment.origin(), Cursor::new(0, 0));
    assert_eq!(alignment.masks(), &vec![StepMask::align(), StepMask::align()]);
    assert_eq!(alignment.score(), 2);
}

#[test]
fn smith_waterman_resets_negative_totals() {
    let x = chars("AB");
    let y = chars("CB");
    let set: AlignmentSet<Matrix> =
        AlignmentSet::new(x.len(), y.len(), SmithWaterman::new(1, -1, -1, -1), |i: usize, j: usize| x[i] == y[j])
            .unwrap();
    assert_eq!(set.local_score(), 1);
    assert_eq!(*set.local_max(), Cursor::new(2, 2));
    assert_eq!(set.global_score(), 1);
    let m = set.matrix();
    assert_eq!(m.cell(&Cursor::new(1, 1)).score(), 0);
    let s = m.cell(&Cursor::new(1, 1)).steps();
    assert!(s.align && s.delete && s.insert);
    let mut count = 0;
    let mut iter = set.local_alignments();
    while let Some(a) = iter.next() {
        assert_eq!(a.score(), 1);
        count += 1;
    }
    assert!(count > 0);
    assert!(set.local_alignment().is_some());
}

#[test]
fn similarity_ties_go_to_the_later_cell() {
    let x = chars("AA");
    let y = chars("A");
    let set: AlignmentSet<Matrix> =
        AlignmentSet::new(x.len(), y.len(), SmithWaterman::new(2, -1, -1, -1), |i: usize, j: usize| x[i] == y[j])
            .unwrap();
    assert_eq!(set.local_score(), 2);
    assert_eq!(*set.local_max(), Cursor::new(2, 1));
}

#[test]
fn similarity_backends_agree() {
    let x = chars("GATTACA");
    let y = chars("GCATGCU");
    let dense: AlignmentSet<Matrix> =
        AlignmentSet::new(x.len(), y.len(), NeedlemanWunsch::new(1, -1, -1, -1), |i: usize, j: usize| x[i] == y[j])
            .unwrap();
    let mapped: AlignmentSet<MappedMatrix> =
        AlignmentSet::new(x.len(), y.len(), NeedlemanWunsch::new(1, -1, -1, -1), |i: usize, j: usize| x[i] == y[j])
            .unwrap();
    assert_eq!(dense.global_score(), mapped.global_score());
    assert_eq!(dense.local_max(), mapped.local_max());
    for row in 0..=y.len() {
        for col in 0..=x.len() {
            let c = Cursor::new(col, row);
            assert_eq!(dense.matrix().cell(&c), mapped.matrix().cell(&c));
        }
    }
}

#[test]
fn scoring_rules() {
    let nw = NeedlemanWunsch::new(2, -1, -3, -4);
    assert_eq!(nw.match_score(), 2);
    assert_eq!(nw.mismatch_score(), -1);
    assert_eq!(nw.insert_score(), -3);
    assert_eq!(nw.delete_score(), -4);
    assert_eq!(nw.total_score(-7), -7);
    let sw = SmithWaterman::new(2, -1, -3, -4);
    assert_eq!(sw.total_score(-7), 0);
    assert_eq!(sw.total_score(5), 5);
    assert!(sw.step_mask(-1, -2, 0).is_empty());
    assert_eq!(sw.step_mask(3, 1, 2), StepMask::align());
    let m = nw.step_mask(1, 4, 2);
    assert!(!m.align && !m.delete && m.insert);
    assert_eq!(sw.step_mask(1, 5, 2), StepMask::insert());
    assert_eq!(sw.step_mask(1, 2, 5), StepMask::delete());
}

#[test]
fn first_column_takes_its_diagonal_from_column_zero() {
    let set: AlignmentSet<Matrix> =
        AlignmentSet::new(1, 2, NeedlemanWunsch::new(0, 10, 0, 0), |_i: usize, _j: usize| false).unwrap();
    let m = set.matrix();
    assert_eq!(m.cell(&Cursor::new(1, 1)).score(), 10);
    let s = m.cell(&Cursor::new(1, 2)).steps();
    assert!(s.align && s.insert && !s.delete);
    assert_eq!(m.cell(&Cursor::new(1, 2)).score(), 10);
}
