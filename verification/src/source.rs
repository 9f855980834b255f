//! Source simulator with a fault-injection dial.
//!
//! The simulator owns its clock and its RNG so runs are reproducible from
//! a seed. Every fault decision bumps a counter: generated, dropped,
//! duplicated, disconnects. Nothing is lost silently.
//!
//! A tick happens in at most two steps. [`Simulator::tick`] settles the
//! outage, disconnect, drop and timing decisions; when a reading survives
//! them it asks for the reading's payload, which the caller draws from
//! [`Simulator::rng_mut`] and hands to [`Simulator::finish_tick`], which
//! settles duplication and emits the reading.
use rand::distributions::{Bernoulli, Distribution};
use rand::rngs::StdRng;
use rand::{Rng, SeedableRng};

use vstd::prelude::*;

use crate::stats::readings_in;
use crate::types::{ReadingKind, SensorReading, SourceEvent};

verus! {

#[verifier::external_type_specification]
#[verifier::external_body]
pub struct ExStdRng(StdRng);

#[verifier::external_type_specification]
#[verifier::external_body]
pub struct ExBernoulli(Bernoulli);

/// The generator `StdRng::seed_from_u64` builds from a seed.
pub uninterp spec fn seeded(seed: u64) -> StdRng;

/// Calls `rand::rngs::StdRng::seed_from_u64`, which builds the generator
/// deterministically from the seed alone: the result is `seeded(seed)`.
#[verifier::external_body]
fn seeded_rng(seed: u64) -> (r: StdRng)
    ensures
        r == seeded(seed),
{
    StdRng::seed_from_u64(seed)
}

/// Calls `<rand::distributions::Bernoulli as Distribution<bool>>::sample`,
/// the draw that `Rng::gen_bool` makes. The outcome is random: nothing is
/// claimed of it.
#[verifier::external_body]
fn roll(chance: &Bernoulli, rng: &mut StdRng) -> bool {
    chance.sample(rng)
}

/// Calls `Rng::gen_range(0..=max)` on `u64`: the result lies in the closed
/// range `0..=max` (the range is never empty, so the call never panics).
#[verifier::external_body]
fn draw_at_most(rng: &mut StdRng, max: u64) -> (r: u64)
    ensures
        r <= max,
{
    rng.gen_range(0..=max)
}

/// A configured chance of a fault. rand's Bernoulli distribution decides
/// probability 1 without drawing and probability 0 by a draw that always
/// fails; these two are held apart so that what they decide is known.
#[derive(Debug, Clone, Copy)]
pub enum Chance {
    /// Probability 0: holds that distribution, whose draw always comes out
    /// `false` and is still made, as `Rng::gen_bool(0.0)` makes it.
    Never(Bernoulli),
    /// Probability 1: always `true`, without a draw.
    Always,
    /// Any other probability in `(0, 1)`, drawn from this distribution.
    Sometimes(Bernoulli),
}

/// Whether the outcome `b` is one that `c` can produce.
pub open spec fn fits(c: Chance, b: bool) -> bool {
    &&& c is Always ==> b
    &&& c is Never ==> !b
}

/// Draw one outcome of a chance, consuming the generator exactly as the
/// Bernoulli distribution does: probability 1 makes no draw, probability 0
/// draws and fails.
fn roll_chance(c: &Chance, rng: &mut StdRng) -> (b: bool)
    ensures
        fits(*c, b),
{
    match c {
        Chance::Always => true,
        Chance::Never(d) => {
            roll(d, rng);
            false
        },
        Chance::Sometimes(d) => roll(d, rng),
    }
}

/// Whether a chance is certain.
fn is_always(c: &Chance) -> (b: bool)
    ensures
        b == forced(*c),
{
    match c {
        Chance::Always => true,
        _ => false,
    }
}

/// Nanoseconds in a millisecond.
pub const NS_PER_MS: u64 = 1_000_000;

/// How the source behaves. Each probability is held as the [`Chance`] it
/// is drawn from; the emission rate is held as the period
/// between readings.
#[derive(Debug, Clone, Copy)]
pub struct SourceConfig {
    /// Nanoseconds between two generated readings.
    pub period_ns: u64,
    /// Timestamp scatter applied on top of the period, in milliseconds:
    /// this is what produces out-of-order arrivals downstream.
    pub jitter_ms: u64,
    pub dup_prob: Chance,
    pub drop_prob: Chance,
    /// Chance per tick that the "wire" breaks and the source goes quiet
    /// for `reconnect_ticks` periods.
    pub disconnect_prob: Chance,
    pub reconnect_ticks: u32,
    pub seed: u64,
}

/// Fault counters. Conservation law: `emitted == generated - dropped + duplicated`.
#[derive(Debug, Clone, Copy, PartialEq, Eq, Structural)]
pub struct SourceCounts {
    pub generated: u64,
    pub emitted: u64,
    pub duplicated: u64,
    pub dropped: u64,
    pub disconnects: u64,
}

impl SourceCounts {
    pub open spec fn zero() -> SourceCounts {
        SourceCounts { generated: 0, emitted: 0, duplicated: 0, dropped: 0, disconnects: 0 }
    }
}

impl Default for SourceCounts {
    fn default() -> (c: SourceCounts)
        ensures
            c == SourceCounts::zero(),
    {
        SourceCounts { generated: 0, emitted: 0, duplicated: 0, dropped: 0, disconnects: 0 }
    }
}

/// A reading that survived the tick's decisions and waits for its payload.
#[derive(Debug, Clone, Copy, PartialEq, Eq, Structural)]
pub struct PendingReading {
    pub seq: u64,
    pub ts_ns: u64,
    pub kind: ReadingKind,
}

/// What the first step of a tick hands back: the tick's events, or a
/// request for the payload of a reading of the given kind.
#[derive(Debug)]
pub enum TickStep<V> {
    Events(Vec<SourceEvent<V>>),
    NeedsValues(ReadingKind),
}

/// The outcomes of the random draws one tick may make.
pub struct Dice {
    pub disconnect: bool,
    pub drop: bool,
    /// Milliseconds of timestamp scatter.
    pub jitter_ms: u64,
    pub dup: bool,
}

impl Dice {
    /// The draws are ones the configuration can produce: each decision fits
    /// its configured chance, and the scatter lies within the bound.
    pub open spec fn fit(self, config: SourceConfig) -> bool {
        &&& fits(config.disconnect_prob, self.disconnect)
        &&& fits(config.drop_prob, self.drop)
        &&& fits(config.dup_prob, self.dup)
        &&& self.jitter_ms <= config.jitter_ms
    }
}

/// The fault a chance decides.
#[derive(Debug, Clone, Copy, PartialEq, Eq, Structural)]
pub enum Fault {
    Disconnect,
    Drop,
    Dup,
}

impl SourceConfig {
    /// The configured chance of a fault.
    pub open spec fn chance(self, fault: Fault) -> Chance {
        match fault {
            Fault::Disconnect => self.disconnect_prob,
            Fault::Drop => self.drop_prob,
            Fault::Dup => self.dup_prob,
        }
    }
}

/// One draw made from the simulator's generator, with its outcome: a fault
/// decision drawn from the chance of that fault, or a timestamp scatter
/// drawn from `0..=max`.
pub enum Draw {
    Roll(Fault, Chance, bool),
    Scatter(u64, u64),
}

/// The draw a chance decides, or `false` where it decides none: an outcome
/// for a decision a tick does not draw.
pub open spec fn forced(c: Chance) -> bool {
    c is Always
}

/// How the first step of a tick ended.
pub enum TickOutcome {
    /// The source is in an outage.
    Dark,
    /// The wire broke on this tick.
    Disconnected,
    /// A reading was generated and dropped before emission.
    Dropped,
    /// A reading was generated and waits for its payload.
    Sample,
}

/// Readings alternate between ultrasonic (even sequence numbers) and IMU.
pub open spec fn kind_of(seq: u64) -> ReadingKind {
    if seq % 2 == 0 {
        ReadingKind::Ultrasonic
    } else {
        ReadingKind::Imu
    }
}

/// The mathematical state of a [`Simulator`]; the generator's state is left out.
pub struct SimView {
    pub config: SourceConfig,
    pub next_seq: u64,
    pub now_ns: u64,
    /// `Some(n)`: in an outage with `n` dark ticks left; `Some(0)`: the
    /// next tick is the recovery tick.
    pub down_for: Option<u32>,
    pub counts: SourceCounts,
    pub pending: Option<PendingReading>,
}

impl SimView {
    pub open spec fn initial(config: SourceConfig) -> SimView {
        SimView {
            config,
            next_seq: 0,
            now_ns: 0,
            down_for: None,
            counts: SourceCounts::zero(),
            pending: None,
        }
    }

    /// The largest scatter a timestamp can get, in nanoseconds.
    pub open spec fn max_jitter_ns(self) -> int {
        self.config.jitter_ms * NS_PER_MS
    }

    /// 1 while a reading waits for its payload, else 0.
    pub open spec fn in_flight(self) -> int {
        if self.pending is Some {
            1
        } else {
            0
        }
    }

    /// The accounting every state keeps.
    pub open spec fn wf(self) -> bool {
        &&& self.counts.generated == self.next_seq
        &&& self.counts.emitted + self.counts.dropped + self.in_flight() == self.counts.generated
            + self.counts.duplicated
        &&& self.counts.dropped + self.counts.duplicated + self.in_flight()
            <= self.counts.generated
        &&& self.pending matches Some(p) ==> {
            &&& self.down_for is None
            &&& p.seq + 1 == self.next_seq
            &&& p.kind == kind_of(p.seq)
            &&& self.now_ns <= p.ts_ns <= self.now_ns + self.max_jitter_ns()
        }
    }

    /// Room for the arithmetic of the next tick, whatever it draws: a dark
    /// tick only counts down; any other tick may bump the disconnect counter
    /// (unless it is the recovery tick), the sequence number and the clock.
    pub open spec fn has_headroom(self) -> bool {
        if self.down_for matches Some(r) && r > 0 {
            true
        } else {
            &&& (self.down_for is None ==> self.counts.disconnects < u64::MAX)
            &&& self.next_seq < u64::MAX
            &&& self.now_ns + self.config.period_ns + self.max_jitter_ns() <= u64::MAX
        }
    }

    /// How the first step of a tick ends for the given draws.
    pub open spec fn outcome(self, d: Dice) -> TickOutcome {
        match self.down_for {
            Some(r) => if r > 0 {
                TickOutcome::Dark
            } else if d.drop {
                TickOutcome::Dropped
            } else {
                TickOutcome::Sample
            },
            None => if d.disconnect {
                TickOutcome::Disconnected
            } else if d.drop {
                TickOutcome::Dropped
            } else {
                TickOutcome::Sample
            },
        }
    }

    /// The state after the first step of a tick with the given draws. The
    /// recovery tick (`down_for == Some(0)`) never rolls the disconnect dice.
    pub open spec fn tick_state(self, d: Dice) -> SimView {
        let seq = self.next_seq;
        let generated = SourceCounts { generated: (self.counts.generated + 1) as u64, ..self.counts };
        let now = (self.now_ns + self.config.period_ns) as u64;
        match self.outcome(d) {
            TickOutcome::Dark => SimView {
                down_for: Some((self.down_for.unwrap() - 1) as u32),
                ..self
            },
            TickOutcome::Disconnected => SimView {
                down_for: Some(self.config.reconnect_ticks),
                counts: SourceCounts {
                    disconnects: (self.counts.disconnects + 1) as u64,
                    ..self.counts
                },
                ..self
            },
            TickOutcome::Dropped => SimView {
                down_for: None,
                next_seq: (seq + 1) as u64,
                counts: SourceCounts { dropped: (self.counts.dropped + 1) as u64, ..generated },
                ..self
            },
            TickOutcome::Sample => SimView {
                down_for: None,
                next_seq: (seq + 1) as u64,
                now_ns: now,
                counts: generated,
                pending: Some(
                    PendingReading {
                        seq,
                        ts_ns: (now + d.jitter_ms * NS_PER_MS) as u64,
                        kind: kind_of(seq),
                    },
                ),
                ..self
            },
        }
    }

    /// The draws the first step of a tick makes for the given outcomes, in
    /// order: none on a dark tick; outside an outage, the disconnect draw;
    /// for a generated reading, the drop draw; for a kept one, the scatter.
    /// The recovery tick skips the disconnect draw.
    pub open spec fn tick_draws(self, d: Dice) -> Seq<Draw> {
        let generated = seq![Draw::Roll(Fault::Drop, self.config.drop_prob, d.drop)] + if d.drop {
            Seq::empty()
        } else {
            seq![Draw::Scatter(self.config.jitter_ms, d.jitter_ms)]
        };
        match self.down_for {
            Some(r) => if r > 0 {
                Seq::empty()
            } else {
                generated
            },
            None => seq![Draw::Roll(Fault::Disconnect, self.config.disconnect_prob, d.disconnect)]
                + if d.disconnect {
                Seq::empty()
            } else {
                generated
            },
        }
    }

    /// The state after the second step of a tick; `dup` tells whether the
    /// reading was duplicated on the wire.
    pub open spec fn finish_state(self, dup: bool) -> SimView {
        SimView {
            pending: None,
            counts: if dup {
                SourceCounts {
                    duplicated: (self.counts.duplicated + 1) as u64,
                    emitted: (self.counts.emitted + 2) as u64,
                    ..self.counts
                }
            } else {
                SourceCounts { emitted: (self.counts.emitted + 1) as u64, ..self.counts }
            },
            ..self
        }
    }
}

/// The events a first step with the given outcome hands back.
pub open spec fn step_agrees<V>(step: TickStep<V>, outcome: TickOutcome, kind: ReadingKind) -> bool {
    match outcome {
        TickOutcome::Dark | TickOutcome::Dropped => step matches TickStep::Events(e) && e@.len()
            == 0,
        TickOutcome::Disconnected => step matches TickStep::Events(e) && e@ == seq![
            SourceEvent::<V>::Disconnected,
        ],
        TickOutcome::Sample => step matches TickStep::NeedsValues(k) && k == kind,
    }
}

/// The simulated source.
pub struct Simulator {
    config: SourceConfig,
    rng: StdRng,
    next_seq: u64,
    now_ns: u64,
    down_for: Option<u32>,
    counts: SourceCounts,
    pending: Option<PendingReading>,
    /// Every draw made from `rng` for a fault decision or a scatter, in order.
    draws: Ghost<Seq<Draw>>,
}

impl View for Simulator {
    type V = SimView;

    closed spec fn view(&self) -> SimView {
        SimView {
            config: self.config,
            next_seq: self.next_seq,
            now_ns: self.now_ns,
            down_for: self.down_for,
            counts: self.counts,
            pending: self.pending,
        }
    }
}

impl Simulator {
    /// The simulator's generator, in its current state.
    pub closed spec fn generator(&self) -> StdRng {
        self.rng
    }

    /// Every draw the simulator has made from its generator for a fault
    /// decision or a timestamp scatter, with its outcome, in order.
    pub closed spec fn draw_log(&self) -> Seq<Draw> {
        self.draws@
    }

    /// Decide a fault by a draw from its configured chance, and log it.
    fn draw_fault(&mut self, fault: Fault) -> (b: bool)
        ensures
            final(self)@ == old(self)@,
            final(self).draw_log() == old(self).draw_log().push(
                Draw::Roll(fault, old(self)@.config.chance(fault), b),
            ),
            fits(old(self)@.config.chance(fault), b),
    {
        let b = match fault {
            Fault::Disconnect => roll_chance(&self.config.disconnect_prob, &mut self.rng),
            Fault::Drop => roll_chance(&self.config.drop_prob, &mut self.rng),
            Fault::Dup => roll_chance(&self.config.dup_prob, &mut self.rng),
        };
        self.draws = Ghost(self.draws@.push(Draw::Roll(fault, self.config.chance(fault), b)));
        b
    }

    /// Draw a timestamp scatter in `0..=jitter_ms`, and log it.
    fn draw_scatter(&mut self) -> (ms: u64)
        ensures
            final(self)@ == old(self)@,
            final(self).draw_log() == old(self).draw_log().push(
                Draw::Scatter(old(self)@.config.jitter_ms, ms),
            ),
            ms <= old(self)@.config.jitter_ms,
    {
        let ms = draw_at_most(&mut self.rng, self.config.jitter_ms);
        self.draws = Ghost(self.draws@.push(Draw::Scatter(self.config.jitter_ms, ms)));
        ms
    }

    /// A simulator at sequence number 0, time 0, connected, with zero
    /// counters and a generator seeded from `config.seed`.
    pub fn new(config: SourceConfig) -> (sim: Self)
        ensures
            sim@ == SimView::initial(config),
            sim@.wf(),
            sim.generator() == seeded(config.seed),
            sim.draw_log() == Seq::<Draw>::empty(),
    {
        let rng = seeded_rng(config.seed);
        Simulator {
            config,
            rng,
            next_seq: 0,
            now_ns: 0,
            down_for: None,
            counts: SourceCounts::default(),
            pending: None,
            draws: Ghost(Seq::empty()),
        }
    }

    pub fn counts(&self) -> (c: SourceCounts)
        ensures
            c == self@.counts,
    {
        self.counts
    }

    pub fn config(&self) -> (c: &SourceConfig)
        ensures
            *c == self@.config,
    {
        &self.config
    }

    /// Whether the next tick has room for its arithmetic.
    pub fn has_headroom(&self) -> (b: bool)
        ensures
            b == self@.has_headroom(),
    {
        match self.down_for {
            Some(r) if r > 0 => true,
            _ => {
                (self.down_for.is_some() || self.counts.disconnects < u64::MAX) && self.next_seq
                    < u64::MAX && self.config.jitter_ms <= u64::MAX / NS_PER_MS && self.now_ns
                    <= u64::MAX - self.config.period_ns && self.now_ns + self.config.period_ns
                    <= u64::MAX - self.config.jitter_ms * NS_PER_MS
            },
        }
    }

    /// Whether the pending reading can be emitted, duplicated or not,
    /// without overflowing the emitted counter.
    pub fn has_room_to_emit(&self) -> (b: bool)
        ensures
            b == (self@.counts.emitted + 2 <= u64::MAX),
    {
        self.counts.emitted <= u64::MAX - 2
    }

    /// The generator, for drawing the payload of a pending reading: a
    /// borrow of the simulator's own generator, whose state after the
    /// caller's draws is the simulator's from then on; nothing else changes.
    pub fn rng_mut(&mut self) -> (rng: &mut StdRng)
        ensures
            *rng == old(self).generator(),
            final(self).generator() == *final(rng),
            final(self)@ == old(self)@,
            final(self).draw_log() == old(self).draw_log(),
    {
        &mut self.rng
    }

    /// Advance one source period, up to the reading's payload. Outage
    /// semantics:
    ///
    /// - Tick T: `Disconnected` marker emitted, outage of exactly
    ///   `reconnect_ticks` dark ticks begins (no marker repeats).
    /// - Ticks T+1 .. T+reconnect_ticks: dark, empty.
    /// - Tick T+reconnect_ticks+1: recovery — generation resumes and the
    ///   disconnect dice are NOT rolled this tick.
    ///
    /// A generated reading is dropped, or stamped one period after the
    /// previous one plus a scatter of at most `jitter_ms`, and its payload
    /// is asked for.
    pub fn tick<V>(&mut self) -> (step: TickStep<V>)
        requires
            old(self)@.wf(),
            old(self)@.pending is None,
            old(self)@.has_headroom(),
        ensures
            final(self)@.wf(),
            exists|d: Dice|
                {
                    &&& d.fit(old(self)@.config)
                    &&& #[trigger] old(self)@.tick_state(d) == final(self)@
                    &&& step_agrees(step, old(self)@.outcome(d), kind_of(old(self)@.next_seq))
                    &&& final(self).draw_log() == old(self).draw_log() + old(self)@.tick_draws(d)
                },
    {
        // Draw exactly what the tick decides on, in rand's order; a decision
        // the tick does not draw takes the value its chance forces.
        let dark = match self.down_for {
            Some(remaining) => remaining > 0,
            None => false,
        };
        let recovering = match self.down_for {
            Some(remaining) => remaining == 0,
            None => false,
        };
        let disconnect = if dark || recovering {
            is_always(&self.config.disconnect_prob)
        } else {
            self.draw_fault(Fault::Disconnect)
        };
        let generating = !dark && (recovering || !disconnect);
        let drop = if generating {
            self.draw_fault(Fault::Drop)
        } else {
            is_always(&self.config.drop_prob)
        };
        let jitter_ms = if generating && !drop {
            self.draw_scatter()
        } else {
            0
        };
        let dup = is_always(&self.config.dup_prob);
        let step = self.step_with(Dice { disconnect, drop, jitter_ms, dup });
        proof {
            let d = Dice { disconnect, drop, jitter_ms, dup };
            assert(self.draw_log() =~= old(self).draw_log() + old(self)@.tick_draws(d));
        }
        step
    }

    /// The first step of a tick, for the given draws (only the ones the
    /// tick decides on are read): the new state is exactly
    /// `tick_state(draws)`, and the result agrees with `outcome(draws)`.
    pub fn step_with<V>(&mut self, draws: Dice) -> (step: TickStep<V>)
        requires
            old(self)@.wf(),
            old(self)@.pending is None,
            old(self)@.has_headroom(),
            draws.jitter_ms <= old(self)@.config.jitter_ms,
        ensures
            final(self)@.wf(),
            final(self)@ == old(self)@.tick_state(draws),
            step_agrees(step, old(self)@.outcome(draws), kind_of(old(self)@.next_seq)),
            final(self).draw_log() == old(self).draw_log(),
    {
        let recovering = match self.down_for {
            Some(remaining) => {
                if remaining > 0 {
                    self.down_for = Some(remaining - 1);
                    return TickStep::Events(Vec::new());
                }
                self.down_for = None;
                true
            },
            None => false,
        };
        if !recovering && draws.disconnect {
            self.counts.disconnects = self.counts.disconnects + 1;
            self.down_for = Some(self.config.reconnect_ticks);
            let mut events = Vec::new();
            events.push(SourceEvent::Disconnected);
            assert(events@ =~= seq![SourceEvent::<V>::Disconnected]);
            return TickStep::Events(events);
        }
        let seq = self.next_seq;
        self.next_seq = self.next_seq + 1;
        self.counts.generated = self.counts.generated + 1;

        if draws.drop {
            self.counts.dropped = self.counts.dropped + 1;
            return TickStep::Events(Vec::new());
        }
        self.now_ns = self.now_ns + self.config.period_ns;
        proof {
            assert(draws.jitter_ms * NS_PER_MS <= self.config.jitter_ms * NS_PER_MS)
                by (nonlinear_arith)
                requires
                    draws.jitter_ms <= self.config.jitter_ms,
            ;
        }
        let jitter_ns = draws.jitter_ms * NS_PER_MS;
        let kind = if seq % 2 == 0 {
            ReadingKind::Ultrasonic
        } else {
            ReadingKind::Imu
        };
        self.pending = Some(PendingReading { seq, ts_ns: self.now_ns + jitter_ns, kind });
        TickStep::NeedsValues(kind)
    }

    /// Settle duplication and emit the pending reading with its payload:
    /// one reading, or (when duplicated on the wire) a copy followed by the
    /// reading itself.
    pub fn finish_tick<V: Clone>(&mut self, values: V) -> (events: Vec<SourceEvent<V>>)
        requires
            old(self)@.wf(),
            old(self)@.pending is Some,
            old(self)@.counts.emitted + 2 <= u64::MAX,
        ensures
            final(self)@.wf(),
            final(self)@ == old(self)@.finish_state(events@.len() == 2),
            events@.len() == 1 || events@.len() == 2,
            fits(old(self)@.config.dup_prob, events@.len() == 2),
            final(self).draw_log() == old(self).draw_log().push(
                Draw::Roll(Fault::Dup, old(self)@.config.dup_prob, events@.len() == 2),
            ),
            ({
                let p = old(self)@.pending.unwrap();
                &&& events@.last() == SourceEvent::Reading(
                    SensorReading { seq: p.seq, ts_ns: p.ts_ns, kind: p.kind, values },
                )
                &&& events@.len() == 2 ==> (events@[0] matches SourceEvent::Reading(r) && r.seq
                    == p.seq && r.ts_ns == p.ts_ns && r.kind == p.kind && cloned(values, r.values))
            }),
    {
        let dup = self.draw_fault(Fault::Dup);
        self.emit_with(dup, values)
    }

    /// The second step of a tick, for the given duplication draw: the new
    /// state is exactly `finish_state(dup)`; the pending reading is emitted
    /// with its payload, preceded by a copy exactly when `dup`.
    pub fn emit_with<V: Clone>(&mut self, dup: bool, values: V) -> (events: Vec<SourceEvent<V>>)
        requires
            old(self)@.wf(),
            old(self)@.pending is Some,
            old(self)@.counts.emitted + 2 <= u64::MAX,
        ensures
            final(self)@.wf(),
            final(self)@ == old(self)@.finish_state(dup),
            final(self).draw_log() == old(self).draw_log(),
            events@.len() == if dup {
                2int
            } else {
                1int
            },
            ({
                let p = old(self)@.pending.unwrap();
                &&& events@.last() == SourceEvent::Reading(
                    SensorReading { seq: p.seq, ts_ns: p.ts_ns, kind: p.kind, values },
                )
                &&& dup ==> (events@[0] matches SourceEvent::Reading(r) && r.seq == p.seq
                    && r.ts_ns == p.ts_ns && r.kind == p.kind && cloned(values, r.values))
            }),
    {
        let p = self.pending.unwrap();
        self.pending = None;
        let mut events = Vec::new();
        if dup {
            self.counts.duplicated = self.counts.duplicated + 1;
            self.counts.emitted = self.counts.emitted + 2;
            let copy = values.clone();
            events.push(
                SourceEvent::Reading(
                    SensorReading { seq: p.seq, ts_ns: p.ts_ns, kind: p.kind, values: copy },
                ),
            );
        } else {
            self.counts.emitted = self.counts.emitted + 1;
        }
        events.push(
            SourceEvent::Reading(SensorReading { seq: p.seq, ts_ns: p.ts_ns, kind: p.kind, values }),
        );
        events
    }
}

/// The state after a whole tick: both steps, with the draws `d`.
pub open spec fn full_tick(s: SimView, d: Dice) -> SimView {
    let t = s.tick_state(d);
    if s.outcome(d) is Sample {
        t.finish_state(d.dup)
    } else {
        t
    }
}

/// The two steps of the simulator make up a whole tick: the state after
/// [`Simulator::tick`] with draws `d`, followed (when a reading waits) by
/// [`Simulator::finish_tick`] with duplication `dup`, is the state after a
/// whole tick with the same draws and that duplication; the run laws below
/// thus speak of what the simulator does.
pub proof fn lemma_two_steps_make_a_tick(s: SimView, d: Dice, dup: bool)
    ensures
        ({
            let whole = Dice { dup, ..d };
            &&& s.outcome(whole) == s.outcome(d)
            &&& s.outcome(d) is Sample ==> s.tick_state(d).finish_state(dup) == full_tick(s, whole)
            &&& !(s.outcome(d) is Sample) ==> s.tick_state(d) == full_tick(s, whole)
        }),
{
}

/// The events of a whole tick with the draws `d`, payloads left out.
pub open spec fn tick_events(s: SimView, d: Dice) -> Seq<SourceEvent<()>> {
    match s.outcome(d) {
        TickOutcome::Disconnected => seq![SourceEvent::Disconnected],
        TickOutcome::Sample => {
            let p = s.tick_state(d).pending.unwrap();
            let r = SourceEvent::Reading(
                SensorReading { seq: p.seq, ts_ns: p.ts_ns, kind: p.kind, values: () },
            );
            if d.dup {
                seq![r, r]
            } else {
                seq![r]
            }
        },
        _ => Seq::empty(),
    }
}

/// The state after whole ticks with each of `dice` in turn, starting from `s`.
pub open spec fn ticks(s: SimView, dice: Seq<Dice>) -> SimView
    decreases dice.len(),
{
    if dice.len() == 0 {
        s
    } else {
        full_tick(ticks(s, dice.drop_last()), dice.last())
    }
}

/// The state before tick `i` of a run.
pub open spec fn state_at(s: SimView, dice: Seq<Dice>, i: int) -> SimView {
    ticks(s, dice.take(i))
}

/// The events of tick `i` of a run.
pub open spec fn events_at(s: SimView, dice: Seq<Dice>, i: int) -> Seq<SourceEvent<()>> {
    tick_events(state_at(s, dice, i), dice[i])
}

/// Every tick of the run has room for its arithmetic, emission included,
/// and the draws of every tick fit the configuration.
pub open spec fn feasible(s: SimView, dice: Seq<Dice>) -> bool {
    forall|i: int|
        0 <= i < dice.len() ==> {
            &&& #[trigger] state_at(s, dice, i).has_headroom()
            &&& state_at(s, dice, i).counts.emitted + 2 <= u64::MAX
            &&& dice[i].fit(s.config)
        }
}

/// A whole tick keeps the accounting, leaves nothing pending, and never
/// changes the configuration; the clock never goes back.
pub proof fn lemma_full_tick_wf(s: SimView, d: Dice)
    requires
        s.wf(),
        s.pending is None,
        s.has_headroom(),
        s.counts.emitted + 2 <= u64::MAX,
        d.jitter_ms <= s.config.jitter_ms,
    ensures
        full_tick(s, d).wf(),
        full_tick(s, d).pending is None,
        full_tick(s, d).config == s.config,
        s.now_ns <= full_tick(s, d).now_ns,
        s.next_seq <= full_tick(s, d).next_seq,
{
    assert(d.jitter_ms * NS_PER_MS <= s.config.jitter_ms * NS_PER_MS) by (nonlinear_arith)
        requires
            d.jitter_ms <= s.config.jitter_ms,
    ;
}

proof fn lemma_state_at_next(s: SimView, dice: Seq<Dice>, i: int)
    requires
        0 <= i < dice.len(),
    ensures
        state_at(s, dice, i + 1) == full_tick(state_at(s, dice, i), dice[i]),
{
    assert(dice.take(i + 1).drop_last() =~= dice.take(i));
}

/// Along a feasible run every state keeps the accounting, nothing is left
/// pending between ticks, the configuration stays, and the clock and the
/// sequence numbers never go back.
pub proof fn lemma_run_wf(s: SimView, dice: Seq<Dice>, i: int)
    requires
        s.wf(),
        s.pending is None,
        feasible(s, dice),
        0 <= i <= dice.len(),
    ensures
        state_at(s, dice, i).wf(),
        state_at(s, dice, i).pending is None,
        state_at(s, dice, i).config == s.config,
        s.now_ns <= state_at(s, dice, i).now_ns,
    decreases i,
{
    if i == 0 {
        assert(dice.take(0) =~= Seq::<Dice>::empty());
    } else {
        lemma_run_wf(s, dice, i - 1);
        lemma_state_at_next(s, dice, i - 1);
        assert(state_at(s, dice, i - 1).has_headroom());
        lemma_full_tick_wf(state_at(s, dice, i - 1), dice[i - 1]);
    }
}

/// Conservation law: between ticks, every generated reading was either
/// dropped or emitted, and each duplication emitted one extra copy:
/// `emitted + dropped == generated + duplicated`.
pub proof fn lemma_conservation(s: SimView, dice: Seq<Dice>)
    requires
        s.wf(),
        s.pending is None,
        feasible(s, dice),
    ensures
        ticks(s, dice).counts.emitted + ticks(s, dice).counts.dropped == ticks(
            s,
            dice,
        ).counts.generated + ticks(s, dice).counts.duplicated,
{
    lemma_run_wf(s, dice, dice.len() as int);
    assert(dice.take(dice.len() as int) =~= dice);
}

/// The clock never goes back along a run.
proof fn lemma_clock_monotone(s: SimView, dice: Seq<Dice>, i: int, j: int)
    requires
        s.wf(),
        s.pending is None,
        feasible(s, dice),
        0 <= i <= j <= dice.len(),
    ensures
        state_at(s, dice, i).now_ns <= state_at(s, dice, j).now_ns,
        state_at(s, dice, i).next_seq <= state_at(s, dice, j).next_seq,
    decreases j - i,
{
    if i < j {
        lemma_clock_monotone(s, dice, i, j - 1);
        lemma_run_wf(s, dice, j - 1);
        lemma_state_at_next(s, dice, j - 1);
        assert(state_at(s, dice, j - 1).has_headroom());
        lemma_full_tick_wf(state_at(s, dice, j - 1), dice[j - 1]);
    }
}

/// A reading emitted on tick `i` of a run carries the next state's clock
/// reading plus at most the configured scatter, and a sequence number
/// below the next state's.
proof fn lemma_reading_bounds(s: SimView, dice: Seq<Dice>, i: int, a: int)
    requires
        s.wf(),
        s.pending is None,
        feasible(s, dice),
        0 <= i < dice.len(),
        0 <= a < events_at(s, dice, i).len(),
        events_at(s, dice, i)[a] is Reading,
    ensures
        state_at(s, dice, i + 1).now_ns <= events_at(s, dice, i)[a]->Reading_0.ts_ns
            <= state_at(s, dice, i + 1).now_ns + s.max_jitter_ns(),
        events_at(s, dice, i)[a]->Reading_0.seq < state_at(s, dice, i + 1).next_seq,
        state_at(s, dice, i).next_seq <= events_at(s, dice, i)[a]->Reading_0.seq,
{
    lemma_run_wf(s, dice, i);
    lemma_state_at_next(s, dice, i);
    let w = state_at(s, dice, i);
    assert(w.has_headroom());
    let d = dice[i];
    assert(d.jitter_ms * NS_PER_MS <= s.config.jitter_ms * NS_PER_MS) by (nonlinear_arith)
        requires
            d.jitter_ms <= s.config.jitter_ms,
    ;
}

/// Timestamps never regress by more than the jitter, and sequence numbers
/// strictly increase: a reading emitted on a later tick carries a larger
/// sequence number, and its timestamp plus the largest scatter is at least
/// the earlier reading's timestamp.
pub proof fn lemma_timestamps_regress_at_most_jitter(
    s: SimView,
    dice: Seq<Dice>,
    i: int,
    a: int,
    j: int,
    b: int,
)
    requires
        s.wf(),
        s.pending is None,
        feasible(s, dice),
        0 <= i < j < dice.len(),
        0 <= a < events_at(s, dice, i).len(),
        0 <= b < events_at(s, dice, j).len(),
        events_at(s, dice, i)[a] is Reading,
        events_at(s, dice, j)[b] is Reading,
    ensures
        events_at(s, dice, j)[b]->Reading_0.ts_ns + s.max_jitter_ns() >= events_at(
            s,
            dice,
            i,
        )[a]->Reading_0.ts_ns,
        events_at(s, dice, i)[a]->Reading_0.seq < events_at(s, dice, j)[b]->Reading_0.seq,
{
    lemma_reading_bounds(s, dice, i, a);
    lemma_reading_bounds(s, dice, j, b);
    lemma_clock_monotone(s, dice, i + 1, j + 1);
    lemma_clock_monotone(s, dice, i + 1, j);
}

/// Outage semantics: after a `Disconnected` marker on tick `i`, the next
/// `reconnect_ticks` ticks are dark and empty, with no marker repeated,
/// and the recovery tick after them never disconnects.
pub proof fn lemma_outage_is_exact(s: SimView, dice: Seq<Dice>, i: int)
    requires
        s.wf(),
        s.pending is None,
        feasible(s, dice),
        0 <= i,
        i + s.config.reconnect_ticks + 1 < dice.len(),
        events_at(s, dice, i) == seq![SourceEvent::<()>::Disconnected],
    ensures
        forall|k: int|
            1 <= k <= s.config.reconnect_ticks ==> #[trigger] events_at(s, dice, i + k).len() == 0,
        state_at(s, dice, i + s.config.reconnect_ticks + 1).outcome(
            dice[i + s.config.reconnect_ticks + 1],
        ) != TickOutcome::Disconnected,
        events_at(s, dice, i + s.config.reconnect_ticks + 1) != seq![
            SourceEvent::<()>::Disconnected,
        ],
{
    let r = s.config.reconnect_ticks as int;
    lemma_run_wf(s, dice, i);
    lemma_state_at_next(s, dice, i);
    let w = state_at(s, dice, i);
    assert(w.outcome(dice[i]) is Disconnected) by {
        if !(w.outcome(dice[i]) is Disconnected) {
            assert(events_at(s, dice, i).len() != 1 || events_at(s, dice, i)[0] is Reading);
        }
    }
    lemma_outage_countdown(s, dice, i, r);
    assert forall|k: int| 1 <= k <= r implies #[trigger] events_at(s, dice, i + k).len() == 0 by {
        lemma_outage_countdown(s, dice, i, k - 1);
    }
    lemma_outage_countdown(s, dice, i, r);
    let g = state_at(s, dice, i + r + 1);
    assert(g.outcome(dice[i + r + 1]) != TickOutcome::Disconnected);
    assert(events_at(s, dice, i + r + 1).len() != 1 || events_at(s, dice, i + r + 1)[0] is Reading);
}

/// After a disconnect on tick `i`, the state before tick `i + 1 + k` is in
/// the outage with `reconnect_ticks - k` dark ticks left.
proof fn lemma_outage_countdown(s: SimView, dice: Seq<Dice>, i: int, k: int)
    requires
        s.wf(),
        s.pending is None,
        feasible(s, dice),
        0 <= i,
        0 <= k <= s.config.reconnect_ticks,
        i + k + 1 < dice.len(),
        state_at(s, dice, i).outcome(dice[i]) is Disconnected,
    ensures
        state_at(s, dice, i + 1 + k).down_for == Some((s.config.reconnect_ticks - k) as u32),
    decreases k,
{
    lemma_run_wf(s, dice, i);
    lemma_state_at_next(s, dice, i);
    if k > 0 {
        lemma_outage_countdown(s, dice, i, k - 1);
        lemma_run_wf(s, dice, i + k);
        lemma_state_at_next(s, dice, i + k);
    }
}

/// A chance of 1 or 0 decides its fault on every tick that draws it:
/// a certain disconnect fires on every tick outside an outage and the
/// recovery tick, a certain drop lets no reading through, a certain
/// duplication doubles every emitted reading; and a chance of 0 never
/// produces its fault.
pub proof fn lemma_certain_chances(s: SimView, d: Dice)
    requires
        d.fit(s.config),
    ensures
        s.config.disconnect_prob is Always && s.down_for is None ==> s.outcome(d)
            is Disconnected,
        s.config.disconnect_prob is Never ==> !(s.outcome(d) is Disconnected),
        s.config.drop_prob is Always ==> !(s.outcome(d) is Sample),
        s.config.drop_prob is Never ==> !(s.outcome(d) is Dropped),
        s.config.dup_prob is Always && s.outcome(d) is Sample ==> tick_events(s, d).len() == 2,
        s.config.dup_prob is Never && s.outcome(d) is Sample ==> tick_events(s, d).len() == 1,
{
}

/// Every fault decision bumps a counter: over a whole tick, the emitted
/// counter grows by the readings among its events, the disconnect counter
/// by its markers, the duplicated counter by one exactly when a reading is
/// doubled, the dropped counter by at most one and only on a silent tick,
/// and the generated counter by one for each reading dropped or emitted.
/// Each reading carries the number of readings generated before it, and
/// the configuration stays as it was.
pub proof fn lemma_tick_counts(s: SimView, d: Dice)
    requires
        s.wf(),
        s.pending is None,
        s.has_headroom(),
        s.counts.emitted + 2 <= u64::MAX,
        d.fit(s.config),
    ensures
        ({
            let e = tick_events(s, d);
            let n = full_tick(s, d).counts;
            let c = s.counts;
            &&& n.emitted == c.emitted + readings_in(e)
            &&& n.disconnects == c.disconnects + (e.len() - readings_in(e))
            &&& n.duplicated == c.duplicated + if e.len() == 2 {
                1int
            } else {
                0int
            }
            &&& c.dropped <= n.dropped <= c.dropped + 1
            &&& n.dropped == c.dropped + 1 ==> e.len() == 0
            &&& n.generated == c.generated + (n.dropped - c.dropped) + if readings_in(e) > 0 {
                1int
            } else {
                0int
            }
            &&& forall|a: int|
                0 <= a < e.len() && (#[trigger] e[a]) is Reading ==> e[a]->Reading_0.seq
                    == c.generated
            &&& full_tick(s, d).config == s.config
        }),
{
    let e = tick_events(s, d);
    lemma_readings_in_small(e);
}

/// The readings among at most two events.
proof fn lemma_readings_in_small<V>(e: Seq<SourceEvent<V>>)
    requires
        e.len() <= 2,
    ensures
        readings_in(e) == (if e.len() >= 1 && e[0] is Reading {
            1int
        } else {
            0int
        }) + (if e.len() == 2 && e[1] is Reading {
            1int
        } else {
            0int
        }),
{
    reveal_with_fuel(readings_in, 3);
    if e.len() == 2 {
        assert(e.drop_last().drop_last().len() == 0);
        assert(e.drop_last().last() == e[0]);
    } else if e.len() == 1 {
        assert(e.drop_last().len() == 0);
    }
}

/// The events of a whole run, tick after tick, payloads left out.
pub open spec fn run_events(s: SimView, dice: Seq<Dice>) -> Seq<SourceEvent<()>>
    decreases dice.len(),
{
    if dice.len() == 0 {
        Seq::empty()
    } else {
        run_events(s, dice.drop_last()) + tick_events(ticks(s, dice.drop_last()), dice.last())
    }
}

/// Readings among two stretches of events add up.
pub proof fn lemma_readings_in_concat<V>(a: Seq<SourceEvent<V>>, b: Seq<SourceEvent<V>>)
    ensures
        readings_in(a + b) == readings_in(a) + readings_in(b),
    decreases b.len(),
{
    if b.len() > 0 {
        lemma_readings_in_concat(a, b.drop_last());
        assert((a + b).drop_last() =~= a + b.drop_last());
    }
}

/// Over a run, the source's emitted and disconnect counters grow by exactly
/// the readings and the markers among the run's events.
pub proof fn lemma_run_counts(s: SimView, dice: Seq<Dice>)
    requires
        s.wf(),
        s.pending is None,
        feasible(s, dice),
    ensures
        ticks(s, dice).counts.emitted == s.counts.emitted + readings_in(run_events(s, dice)),
        ticks(s, dice).counts.disconnects == s.counts.disconnects + run_events(s, dice).len()
            - readings_in(run_events(s, dice)),
    decreases dice.len(),
{
    if dice.len() > 0 {
        let n = (dice.len() - 1) as int;
        let prefix = dice.drop_last();
        assert(prefix =~= dice.take(n));
        assert forall|i: int| 0 <= i < prefix.len() implies {
            &&& #[trigger] state_at(s, prefix, i).has_headroom()
            &&& state_at(s, prefix, i).counts.emitted + 2 <= u64::MAX
            &&& prefix[i].fit(s.config)
        } by {
            assert(prefix.take(i) =~= dice.take(i));
            assert(state_at(s, dice, i).has_headroom());
        }
        lemma_run_counts(s, prefix);
        lemma_run_wf(s, dice, n);
        assert(state_at(s, dice, n).has_headroom());
        lemma_tick_counts(ticks(s, prefix), dice.last());
        lemma_readings_in_concat(
            run_events(s, prefix),
            tick_events(ticks(s, prefix), dice.last()),
        );
    }
}

/// Every emitted reading and every disconnect is counted, none silently:
/// feeding the events of a whole run of a fresh source through a fresh
/// pipeline, the adjudicated total equals the source's emitted counter and
/// the pipeline's disconnect counter equals the source's.
pub proof fn lemma_pipeline_counts_what_source_emits(
    config: SourceConfig,
    window: u64,
    dice: Seq<Dice>,
)
    requires
        feasible(SimView::initial(config), dice),
        run_events(SimView::initial(config), dice).len() < u64::MAX,
    ensures
        ({
            let s = SimView::initial(config);
            let totals = crate::stats::ingest_run(
                crate::pipeline::DedupView::initial(window),
                crate::stats::Totals::zero(),
                run_events(s, dice),
            ).1;
            &&& totals.adjudicated() == ticks(s, dice).counts.emitted
            &&& totals.disconnected == ticks(s, dice).counts.disconnects
        }),
{
    let s = SimView::initial(config);
    lemma_run_counts(s, dice);
    crate::stats::lemma_every_event_counted_once(window, run_events(s, dice));
}

/// The grace lasts exactly one tick: whatever the recovery tick draws,
/// dropped reading or kept, the state after it is outside any outage.
pub proof fn lemma_grace_lasts_one_tick(s: SimView, d: Dice)
    requires
        s.down_for == Some(0u32),
    ensures
        full_tick(s, d).down_for is None,
        !(s.outcome(d) is Disconnected),
{
}

/// After a `Disconnected` marker on tick `i`, the tick after the recovery
/// tick (`i + reconnect_ticks + 2`) rolls the disconnect dice again: it is
/// outside any outage, and a certain disconnect fires there, even when the
/// recovery reading was dropped.
pub proof fn lemma_dice_roll_again_after_grace(s: SimView, dice: Seq<Dice>, i: int)
    requires
        s.wf(),
        s.pending is None,
        feasible(s, dice),
        0 <= i,
        i + s.config.reconnect_ticks + 2 < dice.len(),
        events_at(s, dice, i) == seq![SourceEvent::<()>::Disconnected],
    ensures
        state_at(s, dice, i + s.config.reconnect_ticks + 2).down_for is None,
        s.config.disconnect_prob is Always ==> events_at(s, dice, i + s.config.reconnect_ticks + 2)
            == seq![SourceEvent::<()>::Disconnected],
{
    let r = s.config.reconnect_ticks as int;
    lemma_run_wf(s, dice, i);
    let w = state_at(s, dice, i);
    assert(w.outcome(dice[i]) is Disconnected) by {
        if !(w.outcome(dice[i]) is Disconnected) {
            assert(events_at(s, dice, i).len() != 1 || events_at(s, dice, i)[0] is Reading);
        }
    }
    lemma_outage_countdown(s, dice, i, r);
    lemma_state_at_next(s, dice, i + r + 1);
    lemma_grace_lasts_one_tick(state_at(s, dice, i + r + 1), dice[i + r + 1]);
    let g = state_at(s, dice, i + r + 2);
    if s.config.disconnect_prob is Always {
        lemma_run_wf(s, dice, i + r + 2);
        assert(state_at(s, dice, i + r + 2).has_headroom());
        assert(dice[i + r + 2].fit(s.config));
        lemma_certain_chances(g, dice[i + r + 2]);
    }
}

/// Readings kept so far: generated and not dropped.
pub open spec fn kept(v: SimView) -> int {
    v.counts.generated - v.counts.dropped
}

/// The clock moves by one period on a tick whose reading is kept, and not
/// at all on a dark, disconnect or dropped tick.
pub proof fn lemma_clock_moves_only_for_kept_readings(s: SimView, d: Dice)
    requires
        s.wf(),
        s.pending is None,
        s.has_headroom(),
        s.counts.emitted + 2 <= u64::MAX,
        d.fit(s.config),
    ensures
        kept(full_tick(s, d)) == kept(s) + if s.outcome(d) is Sample {
            1int
        } else {
            0int
        },
        full_tick(s, d).now_ns == s.now_ns + if s.outcome(d) is Sample {
            s.config.period_ns as int
        } else {
            0int
        },
{
    lemma_full_tick_wf(s, d);
}

/// Along a run, the clock stands at one period per reading kept since the
/// start, and each reading is stamped at that count, its own included,
/// times the period, plus the scatter drawn for it.
pub proof fn lemma_clock_counts_kept_readings(s: SimView, dice: Seq<Dice>, i: int)
    requires
        s.wf(),
        s.pending is None,
        feasible(s, dice),
        0 <= i <= dice.len(),
    ensures
        state_at(s, dice, i).now_ns == s.now_ns + s.config.period_ns * (kept(state_at(s, dice, i))
            - kept(s)),
        i < dice.len() ==> forall|a: int|
            0 <= a < events_at(s, dice, i).len() && (#[trigger] events_at(s, dice, i)[a])
                is Reading ==> events_at(s, dice, i)[a]->Reading_0.ts_ns == s.now_ns
                + s.config.period_ns * (kept(state_at(s, dice, i + 1)) - kept(s))
                + dice[i].jitter_ms * NS_PER_MS,
    decreases i,
{
    let p = s.config.period_ns as int;
    if i == 0 {
        assert(dice.take(0) =~= Seq::<Dice>::empty());
    } else {
        lemma_clock_counts_kept_readings(s, dice, i - 1);
        lemma_run_wf(s, dice, i - 1);
        lemma_state_at_next(s, dice, i - 1);
        let w = state_at(s, dice, i - 1);
        assert(w.has_headroom());
        lemma_clock_moves_only_for_kept_readings(w, dice[i - 1]);
        let k = kept(w) - kept(s);
        vstd::arithmetic::mul::lemma_mul_is_distributive_add(p, k, 1);
    }
    if i < dice.len() {
        lemma_run_wf(s, dice, i);
        lemma_state_at_next(s, dice, i);
        let w = state_at(s, dice, i);
        assert(w.has_headroom());
        lemma_clock_moves_only_for_kept_readings(w, dice[i]);
        let k = kept(w) - kept(s);
        vstd::arithmetic::mul::lemma_mul_is_distributive_add(p, k, 1);
        let d = dice[i];
        assert(d.jitter_ms * NS_PER_MS <= s.config.jitter_ms * NS_PER_MS) by (nonlinear_arith)
            requires
                d.jitter_ms <= s.config.jitter_ms,
        ;
    }
}

/// Every fault decision of a tick is the outcome of a draw from that
/// fault's configured chance, made on the simulator's generator in that
/// tick: outside an outage the first draw decides the disconnect; every
/// generated reading, the recovery tick's included, gets a drop draw that
/// decides whether it is dropped; every kept reading gets a scatter draw
/// within the bound, which stamps it. A dark tick draws nothing.
pub proof fn lemma_decisions_are_draws(s: SimView, d: Dice)
    requires
        s.has_headroom(),
        d.fit(s.config),
    ensures
        s.down_for matches Some(r) && r > 0 ==> s.tick_draws(d).len() == 0,
        s.down_for is None ==> s.tick_draws(d)[0] == Draw::Roll(
            Fault::Disconnect,
            s.config.disconnect_prob,
            s.outcome(d) is Disconnected,
        ),
        (s.outcome(d) is Dropped || s.outcome(d) is Sample) ==> s.tick_draws(d)[if s.down_for
            is None {
            1int
        } else {
            0int
        }] == Draw::Roll(Fault::Drop, s.config.drop_prob, s.outcome(d) is Dropped),
        s.outcome(d) is Sample ==> ({
            let last = s.tick_draws(d).last();
            &&& last == Draw::Scatter(s.config.jitter_ms, d.jitter_ms)
            &&& s.tick_state(d).pending.unwrap().ts_ns == s.tick_state(d).now_ns + d.jitter_ms
                * NS_PER_MS
        }),
{
    assert(d.jitter_ms * NS_PER_MS <= s.config.jitter_ms * NS_PER_MS) by (nonlinear_arith)
        requires
            d.jitter_ms <= s.config.jitter_ms,
    ;
    if s.outcome(d) is Sample {
        let g = seq![Draw::Roll(Fault::Drop, s.config.drop_prob, d.drop)] + seq![
            Draw::Scatter(s.config.jitter_ms, d.jitter_ms),
        ];
        assert(g.last() == Draw::Scatter(s.config.jitter_ms, d.jitter_ms));
        if s.down_for is None {
            let h = seq![Draw::Roll(Fault::Disconnect, s.config.disconnect_prob, d.disconnect)] + g;
            assert(h.last() == g.last());
        }
    }
}

} // verus!
