use sense_rig::pipeline::{Deduplicator, Verdict};
use sense_rig::types::{ReadingKind, SensorReading};

fn reading(seq: u64) -> SensorReading<Vec<f32>> {
    SensorReading {
        seq,
        ts_ns: seq * 1_000_000,
        kind: ReadingKind::Ultrasonic,
        values: vec![42.0],
    }
}

#[test]
fn fresh_in_order_seq_is_delivered() {
    let mut dd = Deduplicator::new(8);
    assert_eq!(dd.admit_reading(&reading(1)), Verdict::Delivered);
    assert_eq!(dd.admit_reading(&reading(2)), Verdict::Delivered);
    assert_eq!(dd.high_water(), 2);
}

#[test]
fn exact_repeat_is_duplicate() {
    let mut dd = Deduplicator::new(8);
    dd.admit_reading(&reading(10));
    dd.admit_reading(&reading(11));
    assert_eq!(dd.admit_reading(&reading(10)), Verdict::Duplicate);
    assert_eq!(dd.admit_reading(&reading(11)), Verdict::Duplicate);
}

#[test]
fn reordered_within_window_is_delivered() {
    let mut dd = Deduplicator::new(8);
    dd.admit_reading(&reading(10));
    dd.admit_reading(&reading(11));
    // Arrives out of order but within the window.
    assert_eq!(dd.admit_reading(&reading(9)), Verdict::Delivered);
}

#[test]
fn first_seen_far_behind_frontier_is_late() {
    let mut dd = Deduplicator::new(8);
    dd.admit_reading(&reading(100));
    // First time seen, but 100 - 85 > 8: stale.
    assert_eq!(dd.admit_reading(&reading(85)), Verdict::Late);
}

#[test]
fn duplicate_outside_pruned_set_is_classified_late() {
    // A seq so old it fell out of the seen-set is indistinguishable
    // from a stale first sighting: verdict is Late, still counted.
    let mut dd = Deduplicator::new(8);
    dd.admit_reading(&reading(100));
    dd.admit_reading(&reading(90));
    assert_eq!(dd.admit_reading(&reading(80)), Verdict::Late);
}

#[test]
fn empty_at_start_of_sequence_boundary_is_not_late() {
    // high_water starts at 0; a low first seq must be Delivered,
    // not punished by saturating arithmetic.
    let mut dd = Deduplicator::new(8);
    assert_eq!(dd.admit_reading(&reading(0)), Verdict::Delivered);
    assert_eq!(dd.admit_reading(&reading(1)), Verdict::Delivered);
}

#[test]
fn delivered_seq_is_never_delivered_again() {
    let mut dd = Deduplicator::new(4);
    let seqs = [5u64, 3, 5, 9, 3, 20, 5, 9, 19, 20, 3];
    let mut delivered = Vec::new();
    for &s in seqs.iter() {
        if dd.admit_reading(&reading(s)) == Verdict::Delivered {
            assert!(!delivered.contains(&s));
            delivered.push(s);
        }
    }
    assert_eq!(delivered, vec![5, 3, 9, 20, 19]);
}

#[test]
fn duplicate_only_after_delivery() {
    let mut dd = Deduplicator::new(3);
    let seqs = [7u64, 7, 2, 2, 6, 12, 6, 11, 11];
    let mut delivered = Vec::new();
    let mut verdicts = Vec::new();
    for &s in seqs.iter() {
        let v = dd.admit_reading(&reading(s));
        if v == Verdict::Duplicate {
            assert!(delivered.contains(&s));
        }
        if v == Verdict::Delivered {
            delivered.push(s);
        }
        verdicts.push(v);
    }
    assert_eq!(
        verdicts,
        vec![
            Verdict::Delivered,
            Verdict::Duplicate,
            Verdict::Late,
            Verdict::Late,
            Verdict::Delivered,
            Verdict::Delivered,
            Verdict::Late,
            Verdict::Delivered,
            Verdict::Duplicate,
        ]
    );
}

#[test]
fn high_water_is_monotone() {
    let mut dd = Deduplicator::new(10);
    let mut prev = dd.high_water();
    assert_eq!(prev, 0);
    for &s in [3u64, 8, 5, 2, 15, 14, 30, 1].iter() {
        dd.admit_reading(&reading(s));
        assert!(dd.high_water() >= prev);
        prev = dd.high_water();
    }
    assert_eq!(dd.high_water(), 30);
}

#[test]
fn window_edge_is_inclusive() {
    // Exactly `window` behind the frontier is still within the window.
    let mut dd = Deduplicator::new(8);
    dd.admit_reading(&reading(100));
    assert_eq!(dd.admit_reading(&reading(92)), Verdict::Delivered);
    assert_eq!(dd.admit_reading(&reading(91)), Verdict::Late);
}

#[test]
fn pruned_entry_is_forgotten_but_recent_is_kept() {
    let mut dd = Deduplicator::new(2);
    dd.admit_reading(&reading(10));
    dd.admit_reading(&reading(9));
    // The frontier moves to 12: floor 10 forgets 9 but keeps 10.
    dd.admit_reading(&reading(12));
    assert_eq!(dd.admit_reading(&reading(10)), Verdict::Duplicate);
    assert_eq!(dd.admit_reading(&reading(9)), Verdict::Late);
}
