use seal::{Alignment, Cursor, MatrixCell, Run, Step, StepMask};

#[test]
fn it_works() {}

#[test]
fn apply_works() {
    {
        let cursor = Cursor::new(10, 10).backwards_step(StepMask::stop());
        assert_eq!(cursor, None);
    }
    {
        let cursor = Cursor::new(10, 10).backwards_step(StepMask::align());
        assert_eq!(cursor, Some(Cursor::new(9, 9)));
    }
    {
        let cursor = Cursor::new(10, 10).backwards_step(StepMask::insert());
        assert_eq!(cursor, Some(Cursor::new(10, 9)));
    }
    {
        let cursor = Cursor::new(10, 10).backwards_step(StepMask::delete());
        assert_eq!(cursor, Some(Cursor::new(9, 10)));
    }
}

fn origin() -> Cursor {
    Cursor::new(3, 3)
}

fn steps() -> Vec<StepMask> {
    vec![StepMask::align(), StepMask::align(), StepMask::align()]
}

fn score() -> i64 {
    42
}

fn alignment() -> Alignment {
    Alignment::new(origin(), steps(), score())
}

#[test]
fn alignment_origin_works() {
    assert_eq!(alignment().origin(), &origin());
}

#[test]
fn alignment_steps_works() {
    for (subject, expected) in alignment().steps().iter().zip(steps()) {
        assert_eq!(subject.mask(), expected);
    }
}

#[test]
fn alignment_score_works() {
    assert_eq!(alignment().score(), score());
}

#[test]
fn forwards_step_undoes_backwards_step() {
    let c = Cursor::new(4, 7);
    for d in [StepMask::align(), StepMask::delete(), StepMask::insert()] {
        let back = c.backwards_step(d).unwrap();
        assert_eq!(back.forwards_step(d), Some(c));
    }
    assert_eq!(Cursor::new(0, 0).forwards_step(StepMask::stop()), None);
    assert_eq!(Cursor::new(0, 0).forwards_step(StepMask::delete()), Some(Cursor::new(1, 0)));
}

#[test]
fn from_scores_keeps_every_maximum() {
    let m = StepMask::from_scores(3, 1, 2);
    assert!(m.align && !m.delete && !m.insert);
    let m = StepMask::from_scores(2, 2, 1);
    assert!(m.align && m.delete && !m.insert);
    let m = StepMask::from_scores(5, 5, 5);
    assert!(m.align && m.delete && m.insert);
    let m = StepMask::from_scores(-4, -7, -1);
    assert!(!m.align && !m.delete && m.insert);
}

#[test]
fn step_mask_bits_round_trip() {
    let mut m = StepMask::align();
    m.union_with(StepMask::insert());
    assert_eq!(m.bits(), 10);
    assert_eq!(StepMask::from_bits(m.bits()), m);
    assert_eq!(StepMask::stop().bits(), 0);
    assert!(StepMask::from_bits(0).is_empty());
    assert!(m.contains(StepMask::insert()));
    assert!(!m.contains(StepMask::delete()));
}

#[test]
fn with_bounds_clamps_and_stops() {
    let bounds = -5..=5;
    let c = MatrixCell::with_bounds(3, StepMask::align(), &bounds);
    assert_eq!(c, MatrixCell::new_unchecked(3, StepMask::align()));
    let c = MatrixCell::with_bounds(-9, StepMask::align(), &bounds);
    assert_eq!(c, MatrixCell::new_unchecked(-5, StepMask::stop()));
    let c = MatrixCell::with_bounds(5, StepMask::delete(), &bounds);
    assert_eq!(c, MatrixCell::new_unchecked(5, StepMask::stop()));
    let c = MatrixCell::with_bounds(1 << 100, StepMask::delete(), &bounds);
    assert_eq!(c.score(), 5);
}

#[test]
fn from_steps_keeps_ties() {
    let bounds = i64::MIN..=i64::MAX;
    let c = MatrixCell::from_steps(2, 2, 3, &bounds);
    assert_eq!(c.score(), 2);
    let s = c.steps();
    assert!(s.align && s.delete && !s.insert);
    let c = MatrixCell::from_steps(4, 1, 1, &bounds);
    assert_eq!(c.score(), 1);
    assert!(!c.steps().align && c.steps().delete && c.steps().insert);
}

#[test]
fn steps_are_annotated_with_positions() {
    let a = Alignment::new(
        Cursor::new(1, 2),
        vec![StepMask::delete(), StepMask::align(), StepMask::insert()],
        0,
    );
    assert_eq!(
        a.steps(),
        vec![Step::Delete { x: 1 }, Step::Align { x: 2, y: 2 }, Step::Insert { y: 3 }]
    );
    assert_eq!(a.len(), 3);
    assert!(!a.is_empty());
}

#[test]
fn runs_merge_steps_of_one_kind() {
    let a = Alignment::new(
        Cursor::new(0, 0),
        vec![
            StepMask::delete(),
            StepMask::delete(),
            StepMask::align(),
            StepMask::align(),
            StepMask::align(),
            StepMask::insert(),
        ],
        0,
    );
    let runs = a.runs();
    assert_eq!(
        runs,
        vec![
            Run::Delete { x: 0..2 },
            Run::Align { x: 2..5, y: 0..3 },
            Run::Insert { y: 3..4 },
        ]
    );
    let covered: usize = runs
        .iter()
        .map(|r| match r {
            Run::Align { x, .. } => x.len(),
            Run::Delete { x } => x.len(),
            Run::Insert { y } => y.len(),
        })
        .sum();
    assert_eq!(covered, a.steps().len());
    assert_eq!(runs[1].mask(), StepMask::align());
    assert_eq!(Step::Insert { y: 3 }.to_run(), Run::Insert { y: 3..4 });
}

#[test]
fn runs_of_nothing_are_empty() {
    let a = Alignment::new(Cursor::new(2, 2), vec![], 0);
    assert!(a.runs().is_empty());
    assert!(a.is_empty());
}
