use rustboard_core::commit::{DataLoss, ScalarValue, SummaryMetadata, TimeSeries};
use rustboard_core::reservoir::{Basin, StageReservoir};
use rustboard_core::types::{Step, WallTime};

fn wall(x: f64) -> WallTime {
    WallTime::from_bits(x.to_bits()).unwrap()
}

fn steps<T>(basin: &Basin<T>) -> Vec<i64> {
    basin.as_slice().iter().map(|(s, _)| s.0).collect()
}

#[test]
fn test_valid_values() {
    let mut ts = TimeSeries::<&str>::new(Box::new(SummaryMetadata::default()));

    let mut rsv = StageReservoir::new(10);
    let wall_time = wall(0.0);
    rsv.offer(Step(0), "zero");
    rsv.offer(Step(1), "one");
    rsv.offer(Step(2), "two");
    rsv.offer(Step(3), "three");
    rsv.offer(Step(5), "five");
    rsv.commit_map(&mut ts.basin, |_step, s: &&str| {
        (wall_time, if *s == "three" { Err(DataLoss) } else { Ok(*s) })
    });

    assert_eq!(
        ts.valid_values(),
        vec![
            (Step(0), wall_time, &"zero"),
            (Step(1), wall_time, &"one"),
            (Step(2), wall_time, &"two"),
            (Step(5), wall_time, &"five")
        ]
    );
}

#[test]
fn short_stream_reads_back_whole() {
    let mut ts = TimeSeries::<ScalarValue>::new(Box::new(SummaryMetadata::default()));
    let mut rsv = StageReservoir::new(5);
    for i in 0..4i64 {
        rsv.offer(Step(i * 10), (wall(i as f64), Ok(ScalarValue(i as u32 + 100))));
    }
    rsv.commit(&mut ts.basin);
    let got: Vec<(i64, u64, u32)> = ts
        .valid_values()
        .into_iter()
        .map(|(s, w, v)| (s.0, w.to_bits(), v.0))
        .collect();
    let want: Vec<(i64, u64, u32)> =
        (0..4i64).map(|i| (i * 10, (i as f64).to_bits(), i as u32 + 100)).collect();
    assert_eq!(got, want);
}

#[test]
fn long_stream_keeps_capacity_and_newest() {
    let mut rsv = StageReservoir::new(10);
    for i in 0..1000i64 {
        rsv.offer(Step(i), i);
    }
    let mut basin = Basin::new();
    rsv.commit(&mut basin);
    let s = steps(&basin);
    assert_eq!(s.len(), 10);
    assert_eq!(*s.last().unwrap(), 999);
    assert!(s.windows(2).all(|w| w[0] < w[1]));
    assert_eq!(rsv.offers(), 1000);
    assert_eq!(rsv.latest_step(), Some(Step(999)));
}

#[test]
fn capacity_one_keeps_only_newest() {
    let mut rsv = StageReservoir::new(1);
    for i in 0..50i64 {
        rsv.offer(Step(i), ());
        let mut basin = Basin::new();
        rsv.commit(&mut basin);
        assert_eq!(steps(&basin), vec![i]);
    }
}

#[test]
fn projection_ascending_over_many_commits() {
    let mut rsv = StageReservoir::new(7);
    let mut basin = Basin::new();
    for i in 0..300i64 {
        rsv.offer(Step(3 * i - 200), i);
        if i % 13 == 0 {
            rsv.commit(&mut basin);
            let s = steps(&basin);
            assert!(s.windows(2).all(|w| w[0] < w[1]));
            assert_eq!(*s.last().unwrap(), 3 * i - 200);
        }
    }
}

#[test]
fn all_data_loss_reads_empty_but_fills_slots() {
    for (cap, n) in [(5usize, 3i64), (5, 5), (5, 40)] {
        let mut ts = TimeSeries::<u32>::new(Box::new(SummaryMetadata::default()));
        let mut rsv = StageReservoir::new(cap);
        for i in 0..n {
            rsv.offer(Step(i), i);
        }
        rsv.commit_map(&mut ts.basin, |_s, _v: &i64| (wall(1.0), Err(DataLoss)));
        assert!(ts.valid_values().is_empty());
        assert_eq!(ts.basin.as_slice().len(), std::cmp::min(n as usize, cap));
    }
}

#[test]
fn decode_sees_step_and_payload() {
    let mut rsv = StageReservoir::new(4);
    for i in 0..4i64 {
        rsv.offer(Step(i), i * i);
    }
    let mut basin = Basin::new();
    rsv.commit_map(&mut basin, |s: Step, v: &i64| s.0 + *v);
    let got: Vec<(i64, i64)> = basin.as_slice().iter().map(|(s, v)| (s.0, *v)).collect();
    assert_eq!(got, vec![(0, 0), (1, 2), (2, 6), (3, 12)]);
}

#[test]
fn offer_with_draw_replaces_the_drawn_slot() {
    let mut rsv = StageReservoir::new(3);
    for i in 0..3i64 {
        rsv.offer_with_draw(Step(i), i, 1);
    }
    // Slot 1 takes the previous newest point (step 2); step 0 leaves.
    rsv.offer_with_draw(Step(3), 3, 1);
    let mut basin = Basin::new();
    rsv.commit(&mut basin);
    assert_eq!(steps(&basin), vec![1, 2, 3]);
    // A draw beyond the non-newest slots drops the previous newest point.
    rsv.offer_with_draw(Step(4), 4, 4);
    rsv.commit(&mut basin);
    assert_eq!(steps(&basin), vec![1, 2, 4]);
}

#[test]
fn capacity_three_every_draw_sequence_uniform() {
    // All twelve equally likely draw sequences for offers 3 and 4.
    let mut counts = std::collections::BTreeMap::new();
    for d3 in 1..=3u64 {
        for d4 in 1..=4u64 {
            let mut rsv = StageReservoir::new(3);
            for i in 0..3i64 {
                rsv.offer_with_draw(Step(i), i, 1);
            }
            rsv.offer_with_draw(Step(3), 3, d3);
            rsv.offer_with_draw(Step(4), 4, d4);
            let mut basin = Basin::new();
            rsv.commit(&mut basin);
            let s = steps(&basin);
            assert_eq!(s.len(), 3);
            assert_eq!(s[2], 4);
            assert!(s[0] < s[1] && s[1] < 4);
            *counts.entry((s[0], s[1])).or_insert(0u32) += 1;
        }
    }
    assert_eq!(counts.len(), 6);
    assert!(counts.values().all(|&c| c == 2));
}

#[test]
fn capacity_three_random_subsets_uniform() {
    let trials = 12000u32;
    let mut counts = std::collections::BTreeMap::new();
    for _ in 0..trials {
        let mut rsv = StageReservoir::new(3);
        for i in 0..5i64 {
            rsv.offer(Step(i), i);
        }
        let mut basin = Basin::new();
        rsv.commit(&mut basin);
        let got: Vec<i64> = basin.as_slice().iter().map(|(s, v)| {
            assert_eq!(s.0, *v);
            *v
        }).collect();
        assert_eq!(got.len(), 3);
        assert_eq!(got[2], 4);
        assert!(got[0] >= 0 && got[0] < got[1] && got[1] <= 3);
        *counts.entry((got[0], got[1])).or_insert(0u32) += 1;
    }
    assert_eq!(counts.len(), 6);
    for &c in counts.values() {
        // Expected 2000 each; allow a wide margin for chance.
        assert!(c > 1700 && c < 2300, "subset count {}", c);
    }
}

#[test]
fn long_stream_inclusion_frequency() {
    // n = 21, C = 5: each of the 20 older points is kept with probability 4/20.
    let trials = 10000u32;
    let mut kept = vec![0u32; 20];
    for _ in 0..trials {
        let mut rsv = StageReservoir::new(5);
        for i in 0..21i64 {
            rsv.offer(Step(i), ());
        }
        let mut basin = Basin::new();
        rsv.commit(&mut basin);
        for (s, _) in basin.as_slice() {
            if s.0 < 20 {
                kept[s.0 as usize] += 1;
            }
        }
    }
    for &k in &kept {
        assert!(k > 1700 && k < 2300, "inclusion count {}", k);
    }
}

#[test]
fn new_reservoir_is_empty() {
    let rsv: StageReservoir<u8> = StageReservoir::new(4);
    assert_eq!(rsv.len(), 0);
    assert_eq!(rsv.capacity(), 4);
    assert_eq!(rsv.latest_step(), None);
    let basin: Basin<u8> = Basin::new();
    assert!(basin.as_slice().is_empty());
}
