use rustboard_core::commit::{Commit, DataLoss, RunData, ScalarValue, SummaryMetadata, TimeSeries};
use rustboard_core::reservoir::StageReservoir;
use rustboard_core::test_data::CommitBuilder;
use rustboard_core::types::{Run, Step, Tag, WallTime};

fn wall(x: f64) -> WallTime {
    WallTime::from_bits(x.to_bits()).unwrap()
}

fn series(len: i64, step_start: i64, wall_start: f64) -> TimeSeries<ScalarValue> {
    let mut ts = TimeSeries::new(Box::new(SummaryMetadata::default()));
    let mut rsv = StageReservoir::new(len as usize);
    for i in 0..len {
        let value = 1.0f32 / (i + 1) as f32;
        rsv.offer(Step(step_start + i), (wall(wall_start + i as f64), Ok(ScalarValue(value.to_bits()))));
    }
    rsv.commit(&mut ts.basin);
    ts
}

#[test]
fn wall_time_rejects_non_finite() {
    assert!(WallTime::from_bits(f64::INFINITY.to_bits()).is_none());
    assert!(WallTime::from_bits(f64::NEG_INFINITY.to_bits()).is_none());
    assert!(WallTime::from_bits(f64::NAN.to_bits()).is_none());
    assert_eq!(WallTime::from_bits(1.5f64.to_bits()).unwrap().to_bits(), 1.5f64.to_bits());
    assert!(WallTime::from_bits(f64::MAX.to_bits()).is_some());
    assert!(WallTime::from_bits((-0.0f64).to_bits()).is_some());
}

#[test]
fn start_time_is_first_wall_time_and_stays() {
    let t0 = 1234.5f64;
    let commit = CommitBuilder::new().scalars("train", "xent", series(5, 0, t0)).build();
    let train = Run("train".to_string());
    assert_eq!(commit.start_time(&train), Some(Some(wall(t0))));
    let xent = Tag("xent".to_string());
    assert_eq!(commit.scalar_values(&train, &xent).unwrap().len(), 5);

    commit.commit_scalars(&train, xent.clone(), series(9, 0, t0 + 100.0));
    assert_eq!(commit.start_time(&train), Some(Some(wall(t0))));
    let values = commit.scalar_values(&train, &xent).unwrap();
    assert_eq!(values.len(), 9);
    assert_eq!(values[0].1, wall(t0 + 100.0));
}

#[test]
fn start_time_unset_until_a_valid_point() {
    let commit = Commit::new();
    let run = Run("eval".to_string());
    let mut lost = TimeSeries::<ScalarValue>::new(Box::new(SummaryMetadata::default()));
    let mut rsv = StageReservoir::new(3);
    rsv.offer(Step(0), ());
    rsv.commit_map(&mut lost.basin, |_s, _v: &()| (wall(7.0), Err(DataLoss)));
    commit.commit_scalars(&run, Tag("a".to_string()), lost);
    assert_eq!(commit.start_time(&run), Some(None));
    commit.commit_scalars(&run, Tag("b".to_string()), series(2, 0, 42.0));
    assert_eq!(commit.start_time(&run), Some(Some(wall(42.0))));
    assert_eq!(commit.scalar_values(&run, &Tag("a".to_string())), Some(vec![]));
}

#[test]
fn distinct_tags_commit_in_either_order() {
    let run = Run("train".to_string());
    let (a, b) = (Tag("loss".to_string()), Tag("acc".to_string()));
    let first = Commit::new();
    first.set_start_time(&run, Some(wall(1.0)));
    first.commit_scalars(&run, a.clone(), series(4, 0, 10.0));
    first.commit_scalars(&run, b.clone(), series(6, 5, 20.0));
    let second = Commit::new();
    second.set_start_time(&run, Some(wall(1.0)));
    second.commit_scalars(&run, b.clone(), series(6, 5, 20.0));
    second.commit_scalars(&run, a.clone(), series(4, 0, 10.0));
    for tag in [&a, &b] {
        assert_eq!(first.scalar_values(&run, tag), second.scalar_values(&run, tag));
    }
    assert_eq!(first.start_time(&run), second.start_time(&run));
    assert_eq!(first.start_time(&run), Some(Some(wall(1.0))));
}

#[test]
fn distinct_runs_commit_in_either_order() {
    let (r1, r2) = (Run("a".to_string()), Run("b".to_string()));
    let tag = Tag("x".to_string());
    let first = Commit::new();
    first.commit_scalars(&r1, tag.clone(), series(3, 0, 5.0));
    first.commit_scalars(&r2, tag.clone(), series(2, 0, 8.0));
    let second = Commit::new();
    second.commit_scalars(&r2, tag.clone(), series(2, 0, 8.0));
    second.commit_scalars(&r1, tag.clone(), series(3, 0, 5.0));
    for run in [&r1, &r2] {
        assert_eq!(first.scalar_values(run, &tag), second.scalar_values(run, &tag));
        assert_eq!(first.start_time(run), second.start_time(run));
    }
}

#[test]
fn unknown_run_or_tag_is_none() {
    let commit = CommitBuilder::new().run("empty", None).build();
    assert_eq!(commit.start_time(&Run("empty".to_string())), Some(None));
    assert_eq!(commit.start_time(&Run("nope".to_string())), None);
    assert_eq!(commit.scalar_values(&Run("empty".to_string()), &Tag("x".to_string())), None);
    assert_eq!(commit.run_names(), vec![Run("empty".to_string())]);
}

#[test]
fn builder_run_sets_start_time() {
    let commit = CommitBuilder::new()
        .run("train", Some(wall(3.0)))
        .scalars("train", "xent", series(2, 0, 9.0))
        .build();
    assert_eq!(commit.start_time(&Run("train".to_string())), Some(Some(wall(3.0))));
}

#[test]
fn run_data_replaces_series_under_same_tag() {
    let mut data = RunData::new();
    data.insert_scalars(Tag("t".to_string()), series(3, 0, 2.0));
    data.insert_scalars(Tag("u".to_string()), series(1, 0, 0.5));
    data.insert_scalars(Tag("t".to_string()), series(4, 10, 6.0));
    assert_eq!(data.scalars.len(), 2);
    assert_eq!(data.start_time, Some(wall(2.0)));
    let t = data.scalar_series(&"t".to_string()).unwrap();
    let steps: Vec<i64> = t.valid_values().iter().map(|p| p.0 .0).collect();
    assert_eq!(steps, vec![10, 11, 12, 13]);
    assert!(data.scalar_series(&"v".to_string()).is_none());
}

#[test]
fn scalar_values_keep_bits() {
    let commit = CommitBuilder::new().scalars("r", "s", series(3, 0, 0.0)).build();
    let values = commit.scalar_values(&Run("r".to_string()), &Tag("s".to_string())).unwrap();
    let got: Vec<(i64, f64, f32)> = values
        .iter()
        .map(|(s, w, v)| (s.0, f64::from_bits(w.to_bits()), f32::from_bits(v.0)))
        .collect();
    assert_eq!(got, vec![(0, 0.0, 1.0), (1, 1.0, 0.5), (2, 2.0, 1.0 / 3.0)]);
}

#[test]
fn builder_repeated_commit_changes_nothing() {
    let once = CommitBuilder::new().scalars("r", "s", series(4, 2, 11.0)).build();
    let twice = CommitBuilder::new()
        .scalars("r", "s", series(4, 2, 11.0))
        .scalars("r", "s", series(4, 2, 11.0))
        .build();
    let (run, tag) = (Run("r".to_string()), Tag("s".to_string()));
    assert_eq!(once.scalar_values(&run, &tag), twice.scalar_values(&run, &tag));
    assert_eq!(once.start_time(&run), twice.start_time(&run));
    assert_eq!(twice.run_names(), vec![run]);
}

#[test]
fn builder_run_keeps_series_and_other_runs() {
    let commit = CommitBuilder::new()
        .scalars("train", "xent", series(3, 0, 5.0))
        .scalars("eval", "xent", series(2, 0, 6.0))
        .run("train", Some(wall(-1.0)))
        .build();
    let (train, eval, xent) = (Run("train".to_string()), Run("eval".to_string()), Tag("xent".to_string()));
    assert_eq!(commit.start_time(&train), Some(Some(wall(-1.0))));
    assert_eq!(commit.scalar_values(&train, &xent).unwrap().len(), 3);
    assert_eq!(commit.start_time(&eval), Some(Some(wall(6.0))));
    assert_eq!(commit.scalar_values(&eval, &xent).unwrap().len(), 2);
    assert_eq!(commit.run_names(), vec![train, eval]);
}
