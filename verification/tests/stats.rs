use sense_rig::pipeline::{Deduplicator, Verdict};
use sense_rig::stats::{ingest, Stats, Totals};
use sense_rig::types::{ReadingKind, SensorReading, SourceEvent};

#[test]
fn counts_verdicts_by_branch() {
    let mut s = Stats::default();
    s.record(Verdict::Delivered);
    s.record(Verdict::Delivered);
    s.record(Verdict::Duplicate);
    s.record(Verdict::Late);
    assert_eq!(s.total_adjudicated(), 4);
    assert_eq!(s.totals().delivered, 2);
}

#[test]
fn every_counter_has_its_own_branch() {
    let mut s = Stats::default();
    s.record(Verdict::Late);
    s.record_drop();
    s.record_drop();
    s.record_disconnect();
    assert_eq!(
        s.totals(),
        Totals { delivered: 0, duplicate: 0, late: 1, dropped: 2, disconnected: 1 }
    );
    // Drops and disconnects are not adjudicated readings.
    assert_eq!(s.total_adjudicated(), 1);
}

#[test]
fn default_totals_are_zero() {
    assert_eq!(
        Totals::default(),
        Totals { delivered: 0, duplicate: 0, late: 0, dropped: 0, disconnected: 0 }
    );
    assert_eq!(Stats::default().totals(), Totals::default());
}

fn event(seq: u64) -> SourceEvent<Vec<f32>> {
    SourceEvent::Reading(SensorReading {
        seq,
        ts_ns: 0,
        kind: ReadingKind::Imu,
        values: vec![0.5; 6],
    })
}

#[test]
fn ingest_counts_each_event_once() {
    let mut dd = Deduplicator::new(4);
    let mut stats = Stats::default();
    let events = vec![
        event(1),
        event(2),
        SourceEvent::Disconnected,
        event(2),
        event(20),
        event(3),
        event(19),
    ];
    for e in events.iter() {
        ingest(&mut dd, &mut stats, e);
    }
    assert_eq!(
        stats.totals(),
        Totals { delivered: 4, duplicate: 1, late: 1, dropped: 0, disconnected: 1 }
    );
    assert_eq!(stats.total_adjudicated(), 6);
    assert_eq!(dd.high_water(), 20);
}

#[test]
fn totals_do_not_depend_on_recording_order() {
    let verdicts = [
        Verdict::Late,
        Verdict::Delivered,
        Verdict::Duplicate,
        Verdict::Delivered,
        Verdict::Late,
    ];
    let mut a = Stats::default();
    for v in verdicts.iter() {
        a.record(*v);
    }
    let mut b = Stats::default();
    for v in verdicts.iter().rev() {
        b.record(*v);
    }
    assert_eq!(a, b);
    assert_eq!(
        a.totals(),
        Totals { delivered: 2, duplicate: 1, late: 2, dropped: 0, disconnected: 0 }
    );
}
