use rand::distributions::Bernoulli;
use rand::Rng;
use sense_rig::source::{Chance, Dice, Simulator, SourceConfig, TickStep};
use sense_rig::pipeline::Deduplicator;
use sense_rig::stats::{ingest, Stats};
use sense_rig::types::{ReadingKind, SourceEvent};

fn chance(p: f64) -> Chance {
    let d = Bernoulli::new(p).unwrap();
    if p == 1.0 {
        Chance::Always
    } else if p == 0.0 {
        Chance::Never(d)
    } else {
        Chance::Sometimes(d)
    }
}

/// The defaults: 10 Hz, 5 ms jitter, 5% duplicates, 2% drops, 1% disconnects.
fn default_config() -> SourceConfig {
    SourceConfig {
        period_ns: (1_000_000_000.0 / 10.0) as u64,
        jitter_ms: 5,
        dup_prob: chance(0.05),
        drop_prob: chance(0.02),
        disconnect_prob: chance(0.01),
        reconnect_ticks: 3,
        seed: 42,
    }
}

fn clean_config() -> SourceConfig {
    SourceConfig {
        dup_prob: chance(0.0),
        drop_prob: chance(0.0),
        disconnect_prob: chance(0.0),
        ..default_config()
    }
}

/// One whole tick: the payload of a generated reading is drawn from the
/// simulator's generator between the two steps.
fn tick(sim: &mut Simulator) -> Vec<SourceEvent<Vec<f32>>> {
    match sim.tick() {
        TickStep::Events(events) => events,
        TickStep::NeedsValues(kind) => {
            let rng = sim.rng_mut();
            let values = match kind {
                ReadingKind::Ultrasonic => vec![rng.gen_range(5.0..250.0)],
                ReadingKind::Imu => (0..6).map(|_| rng.gen_range(-2.0..2.0)).collect(),
            };
            sim.finish_tick(values)
        }
    }
}

#[test]
fn dup_prob_one_duplicates_everything() {
    let cfg = SourceConfig {
        dup_prob: chance(1.0),
        ..clean_config()
    };
    let mut sim = Simulator::new(cfg);
    for _ in 0..100 {
        let events = tick(&mut sim);
        match events.as_slice() {
            [SourceEvent::Reading(a), SourceEvent::Reading(b)] => {
                assert_eq!(a, b, "duplicate pair must be byte-identical");
            }
            other => panic!("expected exactly two readings, got {other:?}"),
        }
    }
    let c = sim.counts();
    assert_eq!(c.generated, 100);
    assert_eq!(c.duplicated, 100);
    assert_eq!(c.emitted, 200);
}

#[test]
fn drop_prob_one_emits_nothing() {
    let cfg = SourceConfig {
        drop_prob: chance(1.0),
        ..clean_config()
    };
    let mut sim = Simulator::new(cfg);
    for _ in 0..100 {
        assert!(tick(&mut sim).is_empty(), "drop_prob=1 must never emit");
    }
    let c = sim.counts();
    assert_eq!(c.generated, 100);
    assert_eq!(c.dropped, 100);
    assert_eq!(c.emitted, 0);
}

#[test]
fn disconnect_outage_is_exact_and_recovery_has_grace() {
    let cfg = SourceConfig {
        disconnect_prob: chance(1.0),
        reconnect_ticks: 3,
        ..clean_config()
    };
    let mut sim = Simulator::new(cfg);

    // Tick 1: marker fires, outage begins. It must not repeat.
    assert!(matches!(tick(&mut sim).as_slice(), [SourceEvent::Disconnected]));

    // Ticks 2-4: exactly reconnect_ticks dark ticks.
    assert!(tick(&mut sim).is_empty());
    assert!(tick(&mut sim).is_empty());
    assert!(tick(&mut sim).is_empty());

    // Tick 5: recovery — grace tick, no dice rolled, reading flows.
    assert!(matches!(tick(&mut sim).as_slice(), [SourceEvent::Reading(_)]));

    // Tick 6: back to rolling loaded dice. Certain disconnect.
    assert!(matches!(tick(&mut sim).as_slice(), [SourceEvent::Disconnected]));
    assert_eq!(sim.counts().disconnects, 2);
}

#[test]
fn conservation_law_holds_under_mixed_faults() {
    let mut sim = Simulator::new(default_config());
    for _ in 0..2000 {
        tick(&mut sim);
    }
    let c = sim.counts();
    assert_eq!(c.emitted + c.dropped, c.generated + c.duplicated);
}

#[test]
fn timestamps_never_regress_more_than_jitter() {
    let cfg = SourceConfig {
        jitter_ms: 50,
        period_ns: (1_000_000_000.0 / 10.0) as u64,
        ..clean_config()
    };
    let mut sim = Simulator::new(cfg);
    let mut prev_ts = 0;
    for _ in 0..500 {
        for event in tick(&mut sim) {
            if let SourceEvent::Reading(r) = event {
                assert!(r.ts_ns + 50_000_000 >= prev_ts);
                prev_ts = r.ts_ns;
            }
        }
    }
}

#[test]
fn readings_alternate_kind_and_carry_consecutive_seqs() {
    let mut sim = Simulator::new(clean_config());
    for expected in 0..20u64 {
        let events = tick(&mut sim);
        match events.as_slice() {
            [SourceEvent::Reading(r)] => {
                assert_eq!(r.seq, expected);
                let kind = if expected % 2 == 0 { ReadingKind::Ultrasonic } else { ReadingKind::Imu };
                assert_eq!(r.kind, kind);
                let n = if kind == ReadingKind::Ultrasonic { 1 } else { 6 };
                assert_eq!(r.values.len(), n);
            }
            other => panic!("expected one reading, got {other:?}"),
        }
    }
    assert_eq!(sim.counts().generated, 20);
    assert_eq!(sim.counts().emitted, 20);
}

#[test]
fn jitter_is_scattered_within_bound() {
    // With a 1 s period and up to 50 ms of scatter, reading k is stamped
    // at (k + 1) s plus at most 50 ms; the scatter is not always the bound.
    let cfg = SourceConfig {
        period_ns: 1_000_000_000,
        jitter_ms: 50,
        ..clean_config()
    };
    let mut sim = Simulator::new(cfg);
    let mut scatters = Vec::new();
    for k in 0..200u64 {
        for event in tick(&mut sim) {
            if let SourceEvent::Reading(r) = event {
                let base = (k + 1) * 1_000_000_000;
                assert!(r.ts_ns >= base && r.ts_ns <= base + 50_000_000);
                assert_eq!((r.ts_ns - base) % 1_000_000, 0);
                scatters.push(r.ts_ns - base);
            }
        }
    }
    assert_eq!(scatters.len(), 200);
    assert!(scatters.iter().any(|&s| s != 50_000_000));
    assert!(scatters.iter().any(|&s| s != 0));
}

#[test]
fn zero_jitter_stamps_exact_periods() {
    let cfg = SourceConfig { jitter_ms: 0, ..clean_config() };
    let mut sim = Simulator::new(cfg);
    for k in 1..=10u64 {
        match tick(&mut sim).as_slice() {
            [SourceEvent::Reading(r)] => assert_eq!(r.ts_ns, k * 100_000_000),
            other => panic!("expected one reading, got {other:?}"),
        }
    }
}

#[test]
fn same_seed_same_run() {
    let mut a = Simulator::new(default_config());
    let mut b = Simulator::new(default_config());
    for _ in 0..300 {
        assert_eq!(tick(&mut a), tick(&mut b));
    }
    assert_eq!(a.counts(), b.counts());
}

#[test]
fn new_simulator_starts_at_zero() {
    let sim = Simulator::new(clean_config());
    let c = sim.counts();
    assert_eq!((c.generated, c.emitted, c.duplicated, c.dropped, c.disconnects), (0, 0, 0, 0, 0));
    assert!(sim.has_headroom());
    assert_eq!(sim.config().seed, 42);
    assert_eq!(sim.config().reconnect_ticks, 3);
}

#[test]
fn dropped_readings_still_consume_sequence_numbers() {
    let cfg = SourceConfig { drop_prob: chance(0.5), ..clean_config() };
    let mut sim = Simulator::new(cfg);
    let mut last_seq = None;
    for _ in 0..200 {
        for event in tick(&mut sim) {
            if let SourceEvent::Reading(r) = event {
                if let Some(prev) = last_seq {
                    assert!(r.seq > prev);
                }
                last_seq = Some(r.seq);
            }
        }
    }
    let c = sim.counts();
    assert_eq!(c.generated, 200);
    assert!(c.dropped > 0 && c.emitted > 0);
    assert_eq!(c.emitted + c.dropped, c.generated);
}

#[test]
fn certain_disconnect_fires_outside_outages_only() {
    // With a certain disconnect, every tick is either the marker, a dark
    // tick, or the recovery tick's reading.
    let cfg = SourceConfig {
        disconnect_prob: chance(1.0),
        reconnect_ticks: 2,
        ..clean_config()
    };
    let mut sim = Simulator::new(cfg);
    for _ in 0..5 {
        assert!(matches!(tick(&mut sim).as_slice(), [SourceEvent::Disconnected]));
        assert!(tick(&mut sim).is_empty());
        assert!(tick(&mut sim).is_empty());
        assert!(matches!(tick(&mut sim).as_slice(), [SourceEvent::Reading(_)]));
    }
    let c = sim.counts();
    assert_eq!((c.disconnects, c.generated, c.emitted), (5, 5, 5));
}

#[test]
fn pipeline_counts_what_source_emits() {
    let mut sim = Simulator::new(default_config());
    let mut dd = Deduplicator::new(64);
    let mut stats = Stats::default();
    for _ in 0..2000 {
        for event in tick(&mut sim) {
            ingest(&mut dd, &mut stats, &event);
        }
    }
    let c = sim.counts();
    let t = stats.totals();
    assert_eq!(stats.total_adjudicated(), c.emitted);
    assert_eq!(t.delivered + t.duplicate + t.late, c.emitted);
    assert_eq!(t.disconnected, c.disconnects);
}

fn draws(disconnect: bool, drop: bool, jitter_ms: u64) -> Dice {
    Dice { disconnect, drop, jitter_ms, dup: false }
}

#[test]
fn step_with_follows_the_given_draws() {
    let mut sim = Simulator::new(SourceConfig { reconnect_ticks: 1, ..clean_config() });
    // A drop draw drops the reading, which still consumes its seq.
    match sim.step_with::<Vec<f32>>(draws(false, true, 0)) {
        TickStep::Events(e) => assert!(e.is_empty()),
        TickStep::NeedsValues(_) => panic!("a dropped reading asks for no payload"),
    }
    assert_eq!((sim.counts().generated, sim.counts().dropped), (1, 1));
    // A kept reading is stamped one period later plus the drawn scatter.
    match sim.step_with::<Vec<f32>>(draws(false, false, 3)) {
        TickStep::NeedsValues(kind) => assert_eq!(kind, ReadingKind::Imu),
        TickStep::Events(_) => panic!("a kept reading asks for its payload"),
    }
    let events = sim.emit_with(true, vec![1.5f32]);
    match events.as_slice() {
        [SourceEvent::Reading(a), SourceEvent::Reading(b)] => {
            assert_eq!(a, b);
            assert_eq!((b.seq, b.ts_ns), (1, 100_000_000 + 3_000_000));
        }
        other => panic!("expected a duplicated pair, got {other:?}"),
    }
    // A disconnect draw starts an outage; the next tick is dark whatever
    // is drawn, and the recovery tick ignores the disconnect draw.
    match sim.step_with::<Vec<f32>>(draws(true, false, 0)) {
        TickStep::Events(e) => assert!(matches!(e.as_slice(), [SourceEvent::Disconnected])),
        TickStep::NeedsValues(_) => panic!("a disconnect asks for no payload"),
    }
    match sim.step_with::<Vec<f32>>(draws(false, false, 0)) {
        TickStep::Events(e) => assert!(e.is_empty()),
        TickStep::NeedsValues(_) => panic!("a dark tick asks for no payload"),
    }
    match sim.step_with::<Vec<f32>>(draws(true, false, 0)) {
        TickStep::NeedsValues(kind) => assert_eq!(kind, ReadingKind::Ultrasonic),
        TickStep::Events(_) => panic!("the recovery tick does not disconnect"),
    }
    let events = sim.emit_with(false, vec![7.0f32]);
    assert_eq!(events.len(), 1);
    let c = sim.counts();
    assert_eq!((c.generated, c.emitted, c.duplicated, c.dropped, c.disconnects), (3, 3, 1, 1, 1));
}
